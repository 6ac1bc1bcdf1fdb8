//! The length index over a set of lines and the search that walks it.

use vstd::prelude::*;
use vstd::utf8::{decode_utf8, valid_utf8};
use rayon::iter::IndexedParallelIterator;
use rayon::iter::IntoParallelRefIterator;
use rayon::iter::ParallelIterator;
use crate::distance::{edit_distance, lemma_length_gap, within_distance};
use crate::text::{chars_of, code_point_count, comparison_key, decode_line, is_key};

verus! {

/// One indexed line: its comparison key as characters and the whole line.
pub struct Entry {
    pub key: Vec<char>,
    pub line: String,
}

/// An entry seen as its key and its line.
pub open spec fn entry_view(e: Entry) -> (Seq<char>, Seq<char>) {
    (e.key@, e.line@)
}

/// A bucket seen as its entries' keys and lines.
pub open spec fn bucket_view(b: Vec<Entry>) -> Seq<(Seq<char>, Seq<char>)> {
    b@.map_values(|e: Entry| entry_view(e))
}

/// The lines of a sequence of strings.
pub open spec fn lines_view(v: Seq<String>) -> Seq<Seq<char>> {
    v.map_values(|s: String| s@)
}

/// All entries of the buckets, bucket after bucket.
pub open spec fn flatten(bs: Seq<Seq<(Seq<char>, Seq<char>)>>) -> Seq<(Seq<char>, Seq<char>)>
    decreases bs.len(),
{
    if bs.len() == 0 {
        seq![]
    } else {
        flatten(bs.drop_last()) + bs.last()
    }
}

/// The lines of the entries whose key is within `d` edits of `p`, in order.
pub open spec fn matching(es: Seq<(Seq<char>, Seq<char>)>, p: Seq<char>, d: nat) -> Seq<
    Seq<char>,
>
    decreases es.len(),
{
    if es.len() == 0 {
        seq![]
    } else if edit_distance(es.last().0, p) <= d {
        matching(es.drop_last(), p, d).push(es.last().1)
    } else {
        matching(es.drop_last(), p, d)
    }
}

/// The lines of a bucket's entries.
pub open spec fn bucket_lines(b: Seq<(Seq<char>, Seq<char>)>) -> Seq<Seq<char>> {
    b.map_values(|e: (Seq<char>, Seq<char>)| e.1)
}

/// A sequence of buckets seen as their entries' keys and lines.
pub open spec fn buckets_view(bs: Seq<Vec<Entry>>) -> Seq<Seq<(Seq<char>, Seq<char>)>> {
    bs.map_values(|b: Vec<Entry>| bucket_view(b))
}

/// Every entry of bucket `l` has a key of `l` characters, which is the
/// comparison key of its line under `sep`.
pub open spec fn keyed_by_length(bs: Seq<Seq<(Seq<char>, Seq<char>)>>, sep: Seq<char>) -> bool {
    forall|l: int, k: int|
        0 <= l < bs.len() && 0 <= k < bs[l].len() ==> {
            &&& (#[trigger] bs[l][k]).0.len() == l
            &&& is_key(bs[l][k].1, sep, bs[l][k].0)
        }
}

/// The lines of the buckets, bucket after bucket.
pub open spec fn flat_lines(bs: Seq<Seq<(Seq<char>, Seq<char>)>>) -> Seq<Seq<char>>
    decreases bs.len(),
{
    if bs.len() == 0 {
        seq![]
    } else {
        flat_lines(bs.drop_last()) + bucket_lines(bs.last())
    }
}

/// The lines of `lines` that are valid UTF-8, decoded, in order.
pub open spec fn decoded_lines(lines: Seq<Seq<u8>>) -> Seq<Seq<char>>
    decreases lines.len(),
{
    if lines.len() == 0 {
        seq![]
    } else if valid_utf8(lines.last()) {
        decoded_lines(lines.drop_last()).push(decode_utf8(lines.last()))
    } else {
        decoded_lines(lines.drop_last())
    }
}

/// Selecting matches distributes over concatenation.
pub proof fn lemma_matching_concat(
    x: Seq<(Seq<char>, Seq<char>)>,
    y: Seq<(Seq<char>, Seq<char>)>,
    p: Seq<char>,
    d: nat,
)
    ensures
        matching(x + y, p, d) == matching(x, p, d) + matching(y, p, d),
    decreases y.len(),
{
    if y.len() == 0 {
        assert(x + y =~= x);
        assert(matching(x, p, d) + matching(y, p, d) =~= matching(x, p, d));
    } else {
        assert((x + y).drop_last() =~= x + y.drop_last());
        assert((x + y).last() == y.last());
        lemma_matching_concat(x, y.drop_last(), p, d);
        if edit_distance(y.last().0, p) <= d {
            assert(matching(x, p, d) + matching(y.drop_last(), p, d).push(y.last().1)
                =~= (matching(x, p, d) + matching(y.drop_last(), p, d)).push(y.last().1));
        }
    }
}

/// Entries whose keys all have a length more than `d` away from `p`'s have no
/// match.
pub proof fn lemma_matching_far(es: Seq<(Seq<char>, Seq<char>)>, len: nat, p: Seq<char>, d: nat)
    requires
        len > p.len() + d || p.len() > len + d,
        forall|k: int| 0 <= k < es.len() ==> (#[trigger] es[k]).0.len() == len,
    ensures
        matching(es, p, d) == Seq::<Seq<char>>::empty(),
    decreases es.len(),
{
    if es.len() > 0 {
        assert(es.last() == es[es.len() - 1]);
        lemma_length_gap(es.last().0, p, d);
        lemma_matching_far(es.drop_last(), len, p, d);
    }
}

/// Buckets that hold no match add nothing to a scan over the buckets.
pub proof fn lemma_scan_skip(
    bs: Seq<Seq<(Seq<char>, Seq<char>)>>,
    p: Seq<char>,
    d: nat,
    lo: int,
    hi: int,
)
    requires
        0 <= lo <= hi <= bs.len(),
        forall|l: int| lo <= l < hi ==> #[trigger] matching(bs[l], p, d) == Seq::<Seq<char>>::empty(),
    ensures
        matching(flatten(bs.take(hi)), p, d) == matching(flatten(bs.take(lo)), p, d),
    decreases hi - lo,
{
    if lo < hi {
        lemma_scan_skip(bs, p, d, lo, hi - 1);
        assert(bs.take(hi).drop_last() =~= bs.take(hi - 1));
        lemma_matching_concat(flatten(bs.take(hi - 1)), bs[hi - 1], p, d);
        assert(matching(flatten(bs.take(hi - 1)), p, d) + matching(bs[hi - 1], p, d)
            =~= matching(flatten(bs.take(hi - 1)), p, d));
    }
}

/// In an index whose bucket `l` holds keys of length `l`, a bucket whose
/// length is more than `d` away from the pattern's holds no match, so a scan
/// of the lengths within `d` finds what a scan of every entry finds.
pub proof fn lemma_pruned_scan_complete(
    bs: Seq<Seq<(Seq<char>, Seq<char>)>>,
    p: Seq<char>,
    d: nat,
)
    requires
        forall|l: int, k: int|
            0 <= l < bs.len() && 0 <= k < bs[l].len() ==> (#[trigger] bs[l][k]).0.len() == l,
    ensures
        forall|l: int|
            0 <= l < bs.len() && (l + d < p.len() || l > p.len() + d) ==> #[trigger] matching(
                bs[l],
                p,
                d,
            ) == Seq::<Seq<char>>::empty(),
{
    assert forall|l: int|
        0 <= l < bs.len() && (l + d < p.len() || l > p.len() + d) implies #[trigger] matching(
        bs[l],
        p,
        d,
    ) == Seq::<Seq<char>>::empty() by {
        assert forall|k: int| 0 <= k < bs[l].len() implies (#[trigger] bs[l][k]).0.len() == l by {}
        lemma_matching_far(bs[l], l as nat, p, d);
    }
}

/// Adding a line to one bucket adds it once to the lines of the buckets.
pub proof fn lemma_flat_lines_push(
    bs: Seq<Seq<(Seq<char>, Seq<char>)>>,
    l: int,
    x: (Seq<char>, Seq<char>),
)
    requires
        0 <= l < bs.len(),
    ensures
        flat_lines(bs.update(l, bs[l].push(x))).to_multiset() == flat_lines(bs).to_multiset().insert(
            x.1,
        ),
    decreases bs.len(),
{
    broadcast use vstd::seq_lib::group_to_multiset_ensures;

    let nb = bs.update(l, bs[l].push(x));
    if l == bs.len() - 1 {
        assert(nb.drop_last() =~= bs.drop_last());
        assert(bucket_lines(nb.last()) =~= bucket_lines(bs.last()).push(x.1));
        assert(flat_lines(nb) =~= flat_lines(bs).push(x.1));
    } else {
        assert(nb.drop_last() =~= bs.drop_last().update(l, bs[l].push(x)));
        assert(nb.last() == bs.last());
        lemma_flat_lines_push(bs.drop_last(), l, x);
        vstd::seq_lib::lemma_multiset_commutative(flat_lines(nb.drop_last()), bucket_lines(bs.last()));
        vstd::seq_lib::lemma_multiset_commutative(flat_lines(bs.drop_last()), bucket_lines(bs.last()));
        assert(flat_lines(nb).to_multiset() =~= flat_lines(bs).to_multiset().insert(x.1));
    }
}

/// The key lengths that a search visits: those within `max_distance` of the
/// pattern's length, cut off at the largest length indexed. The range is
/// empty (`from > to`) when the pattern is longer than every key by more than
/// `max_distance`.
pub fn length_range(pattern_len: usize, max_distance: usize, max_length: usize) -> (r: (
    usize,
    usize,
))
    ensures
        r.0 == if pattern_len > max_distance {
            pattern_len - max_distance
        } else {
            0
        },
        r.1 == if pattern_len + max_distance > max_length {
            max_length as int
        } else {
            pattern_len + max_distance
        },
{
    let from_len = if pattern_len > max_distance {
        pattern_len - max_distance
    } else {
        0
    };
    let to_len = if max_distance >= max_length || pattern_len > max_length - max_distance {
        max_length
    } else {
        pattern_len + max_distance
    };
    (from_len, to_len)
}

/// Relies on rayon's `par_iter().map(..).collect_into_vec(..)` over a slice:
/// one result per entry, in the entries' order, each from `within_distance`.
#[verifier::external_body]
fn compare_bucket(bucket: &Vec<Entry>, pattern: &[char], max_distance: usize) -> (r: Vec<bool>)
    ensures
        r@.len() == bucket@.len(),
        forall|k: int|
            0 <= k < r@.len() ==> r@[k] == (edit_distance(bucket@[k].key@, pattern@)
                <= max_distance),
{
    let mut flags: Vec<bool> = Vec::new();
    bucket.par_iter().map(|e| within_distance(&e.key, pattern, max_distance)).collect_into_vec(
        &mut flags,
    );
    flags
}

/// The length index: bucket `l` holds every line whose comparison key has `l`
/// characters.
pub struct Searcher {
    buckets: Vec<Vec<Entry>>,
    max_length: usize,
    separator: String,
}

impl Searcher {
    /// The buckets, each as its entries' keys and lines.
    pub closed spec fn buckets(self) -> Seq<Seq<(Seq<char>, Seq<char>)>> {
        buckets_view(self.buckets@)
    }

    /// The largest comparison-key length indexed, zero for an empty index.
    pub closed spec fn max_len(self) -> nat {
        self.max_length as nat
    }

    /// The separator that splits keys from the rest of a line.
    pub closed spec fn sep(self) -> Seq<char> {
        self.separator@
    }

    /// Every line stored in the index, bucket after bucket.
    pub open spec fn lines(self) -> Seq<Seq<char>> {
        flat_lines(self.buckets())
    }

    /// One bucket per length up to the largest, each entry in the bucket of
    /// its key's length and keyed by the separator, the largest bucket not
    /// empty unless the index is.
    #[verifier::type_invariant]
    closed spec fn well_formed(self) -> bool {
        &&& self.buckets@.len() == self.max_length + 1
        &&& forall|l: int, k: int|
            0 <= l < self.buckets@.len() && 0 <= k < self.buckets@[l]@.len() ==> {
                &&& (#[trigger] self.buckets@[l]@[k]).key@.len() == l
                &&& is_key(self.buckets@[l]@[k].line@, self.separator@, self.buckets@[l]@[k].key@)
            }
        &&& (self.max_length == 0 || self.buckets@[self.max_length as int]@.len() > 0)
    }

    /// Builds the index from raw lines: each line that is valid UTF-8 goes,
    /// whole, into the bucket of its comparison key's length; the others are
    /// skipped.
    pub fn from_lines(lines: &Vec<Vec<u8>>, separator: &str) -> (s: Searcher)
        ensures
            s.sep() == separator@,
            keyed_by_length(s.buckets(), separator@),
            s.buckets().len() == s.max_len() + 1,
            s.max_len() == 0 || s.buckets()[s.max_len() as int].len() > 0,
            s.lines().to_multiset() == decoded_lines(
                lines@.map_values(|l: Vec<u8>| l@),
            ).to_multiset(),
    {
        let ghost ls = lines@.map_values(|l: Vec<u8>| l@);
        let mut buckets: Vec<Vec<Entry>> = Vec::new();
        buckets.push(Vec::new());
        let mut max_length: usize = 0;
        proof {
            assert(bucket_view(buckets@[0]) =~= Seq::<(Seq<char>, Seq<char>)>::empty());
            assert(buckets_view(buckets@) =~= seq![Seq::<(Seq<char>, Seq<char>)>::empty()]);
            assert(buckets_view(buckets@).drop_last() =~= Seq::<Seq<(Seq<char>, Seq<char>)>>::empty());
            assert(bucket_lines(buckets_view(buckets@).last()) =~= Seq::<Seq<char>>::empty());
            assert(buckets_view(buckets@).drop_last().len() == 0);
            assert(flat_lines(buckets_view(buckets@).drop_last()) =~= Seq::<Seq<char>>::empty());
            assert(flat_lines(buckets_view(buckets@)) =~= Seq::<Seq<char>>::empty());
            assert(decoded_lines(ls.take(0)) =~= Seq::<Seq<char>>::empty());
        }
        let mut t: usize = 0;
        while t < lines.len()
            invariant
                t <= lines@.len(),
                ls == lines@.map_values(|l: Vec<u8>| l@),
                buckets@.len() == max_length + 1,
                keyed_by_length(buckets_view(buckets@), separator@),
                max_length == 0 || buckets@[max_length as int]@.len() > 0,
                flat_lines(buckets_view(buckets@)).to_multiset() == decoded_lines(
                    ls.take(t as int),
                ).to_multiset(),
            decreases lines@.len() - t,
        {
            proof {
                assert(ls.take(t + 1).drop_last() =~= ls.take(t as int));
                assert(ls.take(t + 1).last() == lines@[t as int]@);
            }
            match decode_line(lines[t].as_slice()) {
                Some(text) => {
                    let key = comparison_key(text, separator);
                    let n = code_point_count(key);
                    let chars = chars_of(key);
                    let ghost old_max = max_length;
                    while buckets.len() <= n
                        invariant
                            buckets@.len() >= old_max + 1,
                            keyed_by_length(buckets_view(buckets@), separator@),
                            old_max == 0 || buckets@[old_max as int]@.len() > 0,
                            forall|l: int| old_max < l < buckets@.len() ==> buckets@[l]@.len() == 0,
                            buckets@.len() <= n + 1 || buckets@.len() == old_max + 1,
                            flat_lines(buckets_view(buckets@)).to_multiset() == decoded_lines(
                                ls.take(t as int),
                            ).to_multiset(),
                        decreases n + 1 - buckets@.len(),
                    {
                        let ghost before = buckets_view(buckets@);
                        buckets.push(Vec::new());
                        proof {
                            let after = buckets_view(buckets@);
                            assert(after.drop_last() =~= before);
                            assert(bucket_lines(after.last()) =~= Seq::<Seq<char>>::empty());
                            assert(flat_lines(after) =~= flat_lines(before));
                            assert forall|l: int, k: int|
                                0 <= l < after.len() && 0 <= k < after[l].len() implies {
                                &&& (#[trigger] after[l][k]).0.len() == l
                                &&& is_key(after[l][k].1, separator@, after[l][k].0)
                            } by {
                                assert(l < before.len());
                                assert(after[l] == before[l]);
                            }
                        }
                    }
                    if n > max_length {
                        max_length = n;
                    }
                    let ghost before = buckets_view(buckets@);
                    let entry = Entry { key: chars, line: text.to_owned() };
                    let ghost x = entry_view(entry);
                    let ghost e = entry;
                    let ghost old_bs = buckets@;
                    buckets[n].push(entry);
                    proof {
                        broadcast use vstd::seq_lib::group_to_multiset_ensures;

                        let after = buckets_view(buckets@);
                        assert(buckets@.len() == old_bs.len());
                        assert(buckets@[n as int]@ == old_bs[n as int]@.push(e));
                        assert(bucket_view(buckets@[n as int]) =~= bucket_view(old_bs[n as int]).push(x));
                        assert(forall|l: int| 0 <= l < old_bs.len() && l != n ==> buckets@[l] == old_bs[l]);
                        assert(after =~= before.update(n as int, before[n as int].push(x)));
                        lemma_flat_lines_push(before, n as int, x);
                        assert(decoded_lines(ls.take(t + 1)) == decoded_lines(ls.take(t as int)).push(x.1));
                        assert forall|l: int, k: int|
                            0 <= l < after.len() && 0 <= k < after[l].len() implies {
                            &&& (#[trigger] after[l][k]).0.len() == l
                            &&& is_key(after[l][k].1, separator@, after[l][k].0)
                        } by {
                            if l != n || k < before[l].len() {
                                assert(after[l][k] == before[l][k]);
                            }
                        }
                    }
                },
                None => {
                    assert(decoded_lines(ls.take(t + 1)) == decoded_lines(ls.take(t as int)));
                },
            }
            t += 1;
        }
        assert(ls.take(lines@.len() as int) =~= ls);
        let sep = separator.to_owned();
        proof {
            let bv = buckets_view(buckets@);
            assert forall|l: int, k: int|
                0 <= l < buckets@.len() && 0 <= k < buckets@[l]@.len() implies {
                &&& (#[trigger] buckets@[l]@[k]).key@.len() == l
                &&& is_key(buckets@[l]@[k].line@, sep@, buckets@[l]@[k].key@)
            } by {
                assert(bv[l] == bucket_view(buckets@[l]));
                assert(bv[l][k] == entry_view(buckets@[l]@[k]));
            }
        }
        Searcher { buckets, max_length, separator: sep }
    }

    /// The largest comparison-key length indexed.
    pub fn max_length(&self) -> (r: usize)
        ensures
            r == self.max_len(),
    {
        self.max_length
    }

    /// Every stored line whose comparison key is within `max_distance` edits
    /// of `pattern`, as a scan of all entries would find them; only the buckets
    /// whose length is within `max_distance` of the pattern's are visited.
    pub fn search(&self, pattern: &str, max_distance: usize) -> (r: Vec<String>)
        ensures
            lines_view(r@) == matching(flatten(self.buckets()), pattern@, max_distance as nat),
    {
        proof {
            use_type_invariant(self);
        }
        let ghost bs = self.buckets();
        let ghost d = max_distance as nat;
        let p = chars_of(pattern);
        let plen = p.len();
        assert(bs.len() == self.buckets@.len());
        assert forall|l: int, k: int| 0 <= l < bs.len() && 0 <= k < bs[l].len() implies (
        #[trigger] bs[l][k]).0.len() == l by {
            assert(bs[l] == bucket_view(self.buckets@[l]));
            assert(bs[l][k] == entry_view(self.buckets@[l]@[k]));
        }
        proof {
            lemma_pruned_scan_complete(bs, pattern@, d);
        }
        let (from_len, to_len) = length_range(plen, max_distance, self.max_length);
        let mut results: Vec<String> = Vec::new();
        if from_len > to_len {
            proof {
                lemma_scan_skip(bs, pattern@, d, 0, bs.len() as int);
                assert(bs.take(bs.len() as int) =~= bs);
                assert(flatten(bs.take(0)) =~= Seq::<(Seq<char>, Seq<char>)>::empty());
                assert(lines_view(results@) =~= Seq::<Seq<char>>::empty());
            }
            return results;
        }
        proof {
            lemma_scan_skip(bs, pattern@, d, 0, from_len as int);
            assert(flatten(bs.take(0)) =~= Seq::<(Seq<char>, Seq<char>)>::empty());
            assert(lines_view(results@) =~= Seq::<Seq<char>>::empty());
        }
        let nb = self.buckets.len();
        assert(self.max_length < nb);
        let mut len = from_len;
        while len <= to_len
            invariant
                self.max_length < nb,
                from_len <= len <= to_len + 1,
                to_len <= self.max_length,
                bs == self.buckets(),
                bs.len() == self.buckets@.len(),
                self.buckets@.len() == self.max_length + 1,
                p@ == pattern@,
                d == max_distance,
                lines_view(results@) == matching(flatten(bs.take(len as int)), pattern@, d),
            decreases to_len + 1 - len,
        {
            let bucket = &self.buckets[len];
            let flags = compare_bucket(bucket, p.as_slice(), max_distance);
            let ghost before = results@;
            let mut k: usize = 0;
            while k < bucket.len()
                invariant
                    k <= bucket@.len(),
                    p@ == pattern@,
                    d == max_distance,
                    flags@.len() == bucket@.len(),
                    forall|t: int|
                        0 <= t < flags@.len() ==> flags@[t] == (edit_distance(
                            bucket@[t].key@,
                            p@,
                        ) <= max_distance),
                    lines_view(results@) == lines_view(before) + matching(
                        bucket_view(*bucket).take(k as int),
                        pattern@,
                        d,
                    ),
                decreases bucket@.len() - k,
            {
                let ghost bv = bucket_view(*bucket);
                assert(bv.take(k + 1).drop_last() =~= bv.take(k as int));
                assert(bv.take(k + 1).last() == entry_view(bucket@[k as int]));
                let ghost prev = results@;
                if flags[k] {
                    results.push(bucket[k].line.clone());
                    assert(lines_view(results@) =~= lines_view(prev).push(bucket@[k as int].line@));
                }
                proof {
                    let mk = matching(bv.take(k as int), pattern@, d);
                    let tk = bv.take(k + 1);
                    assert(bv[k as int] == entry_view(bucket@[k as int]));
                    assert(tk.len() > 0);
                    assert(tk.last() == bv[k as int]);
                    assert(tk.drop_last() =~= bv.take(k as int));
                    assert(flags@[k as int] == (edit_distance(tk.last().0, pattern@) <= d));
                    if flags[k as int] {
                        assert(matching(bv.take(k + 1), pattern@, d) == mk.push(
                            bucket@[k as int].line@,
                        ));
                        assert(lines_view(results@) =~= lines_view(before) + mk.push(
                            bucket@[k as int].line@,
                        ));
                    } else {
                        assert(matching(bv.take(k + 1), pattern@, d) == mk);
                    }
                }
                k += 1;
            }
            proof {
                let bv = bucket_view(*bucket);
                assert(bv.take(bv.len() as int) =~= bv);
                assert(bs[len as int] == bv);
                assert(bs.take(len + 1).drop_last() =~= bs.take(len as int));
                lemma_matching_concat(flatten(bs.take(len as int)), bv, pattern@, d);
            }
            len += 1;
        }
        proof {
            lemma_scan_skip(bs, pattern@, d, len as int, bs.len() as int);
            assert(bs.take(bs.len() as int) =~= bs);
        }
        results
    }
}

} // verus!
