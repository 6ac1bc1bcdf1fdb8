//! Levenshtein distance, a rolling-row dynamic program that decides it, and
//! the laws relating the distance to its arguments.

use vstd::prelude::*;

verus! {

/// The smallest of three naturals.
pub open spec fn min3(x: nat, y: nat, z: nat) -> nat {
    if x <= y && x <= z {
        x
    } else if y <= z {
        y
    } else {
        z
    }
}

/// Edit distance between the suffixes `a[i..]` and `b[j..]`: unit-cost
/// insertions, deletions and substitutions, where equal leading characters are
/// always matched to each other.
pub open spec fn dist_from(a: Seq<char>, b: Seq<char>, i: int, j: int) -> nat
    decreases (a.len() - i) + (b.len() - j),
    when 0 <= i <= a.len() && 0 <= j <= b.len()
{
    if i >= a.len() {
        (b.len() - j) as nat
    } else if j >= b.len() {
        (a.len() - i) as nat
    } else if a[i] == b[j] {
        dist_from(a, b, i + 1, j + 1)
    } else {
        1 + min3(
            dist_from(a, b, i + 1, j),
            dist_from(a, b, i, j + 1),
            dist_from(a, b, i + 1, j + 1),
        )
    }
}

/// Levenshtein edit distance between two character sequences.
pub open spec fn edit_distance(a: Seq<char>, b: Seq<char>) -> nat {
    dist_from(a, b, 0, 0)
}

/// The distance never exceeds the longer of the two remaining suffixes.
pub proof fn lemma_dist_upper(a: Seq<char>, b: Seq<char>, i: int, j: int)
    requires
        0 <= i <= a.len(),
        0 <= j <= b.len(),
    ensures
        dist_from(a, b, i, j) <= if a.len() - i >= b.len() - j {
            a.len() - i
        } else {
            b.len() - j
        },
    decreases (a.len() - i) + (b.len() - j),
{
    if i < a.len() && j < b.len() {
        lemma_dist_upper(a, b, i + 1, j + 1);
        if a[i] != b[j] {
            lemma_dist_upper(a, b, i + 1, j);
            lemma_dist_upper(a, b, i, j + 1);
        }
    }
}

/// The distance is at least the difference of the remaining lengths.
pub proof fn lemma_dist_lower(a: Seq<char>, b: Seq<char>, i: int, j: int)
    requires
        0 <= i <= a.len(),
        0 <= j <= b.len(),
    ensures
        dist_from(a, b, i, j) >= (a.len() - i) - (b.len() - j),
        dist_from(a, b, i, j) >= (b.len() - j) - (a.len() - i),
    decreases (a.len() - i) + (b.len() - j),
{
    if i < a.len() && j < b.len() {
        lemma_dist_lower(a, b, i + 1, j + 1);
        if a[i] != b[j] {
            lemma_dist_lower(a, b, i + 1, j);
            lemma_dist_lower(a, b, i, j + 1);
        }
    }
}

/// The suffix distance does not depend on which argument comes first.
pub proof fn lemma_dist_symmetric(a: Seq<char>, b: Seq<char>, i: int, j: int)
    requires
        0 <= i <= a.len(),
        0 <= j <= b.len(),
    ensures
        dist_from(a, b, i, j) == dist_from(b, a, j, i),
    decreases (a.len() - i) + (b.len() - j),
{
    if i < a.len() && j < b.len() {
        lemma_dist_symmetric(a, b, i + 1, j + 1);
        if a[i] != b[j] {
            lemma_dist_symmetric(a, b, i + 1, j);
            lemma_dist_symmetric(a, b, i, j + 1);
        }
    }
}

/// The suffix distance is zero exactly when the two suffixes are equal.
pub proof fn lemma_dist_zero(a: Seq<char>, b: Seq<char>, i: int, j: int)
    requires
        0 <= i <= a.len(),
        0 <= j <= b.len(),
    ensures
        dist_from(a, b, i, j) == 0 <==> a.subrange(i, a.len() as int) == b.subrange(
            j,
            b.len() as int,
        ),
    decreases (a.len() - i) + (b.len() - j),
{
    let sa = a.subrange(i, a.len() as int);
    let sb = b.subrange(j, b.len() as int);
    if i < a.len() && j < b.len() {
        lemma_dist_zero(a, b, i + 1, j + 1);
        let ta = a.subrange(i + 1, a.len() as int);
        let tb = b.subrange(j + 1, b.len() as int);
        assert(sa =~= seq![a[i]] + ta);
        assert(sb =~= seq![b[j]] + tb);
        if a[i] == b[j] {
            if ta == tb {
                assert(sa =~= sb);
            }
            if sa == sb {
                assert(ta =~= sa.subrange(1, sa.len() as int));
                assert(tb =~= sb.subrange(1, sb.len() as int));
            }
        } else {
            assert(sa[0] != sb[0]);
        }
    } else if i < a.len() {
        assert(sa.len() != sb.len());
    } else if j < b.len() {
        assert(sa.len() != sb.len());
    } else {
        assert(sa =~= sb);
    }
}

/// A distance of zero means equal sequences, and nothing else does.
pub proof fn lemma_zero_distance(a: Seq<char>, b: Seq<char>)
    ensures
        (edit_distance(a, b) == 0) == (a == b),
{
    lemma_dist_zero(a, b, 0, 0);
    assert(a.subrange(0, a.len() as int) =~= a);
    assert(b.subrange(0, b.len() as int) =~= b);
}

/// The edit distance is symmetric.
pub proof fn lemma_symmetric(a: Seq<char>, b: Seq<char>)
    ensures
        edit_distance(a, b) == edit_distance(b, a),
{
    lemma_dist_symmetric(a, b, 0, 0);
}

/// Two sequences whose lengths differ by more than `d` are never within `d`.
pub proof fn lemma_length_gap(a: Seq<char>, b: Seq<char>, d: nat)
    requires
        a.len() > b.len() + d || b.len() > a.len() + d,
    ensures
        !(edit_distance(a, b) <= d),
{
    lemma_dist_lower(a, b, 0, 0);
}

/// Whether two character sequences are equal, one position at a time.
pub fn same_chars(a: &[char], b: &[char]) -> (r: bool)
    ensures
        r == (a@ == b@),
{
    if a.len() != b.len() {
        return false;
    }
    let mut k: usize = 0;
    while k < a.len()
        invariant
            a.len() == b.len(),
            k <= a.len(),
            forall|t: int| 0 <= t < k ==> a@[t] == b@[t],
        decreases a.len() - k,
    {
        if a[k] != b[k] {
            return false;
        }
        k += 1;
    }
    assert(a@ =~= b@);
    true
}

/// Decides `edit_distance(a, b) <= max_distance` with one rolling row of the
/// distance table, filled from the ends of both sequences towards the front.
pub fn wagner_fischer(a: &[char], b: &[char], max_distance: usize) -> (r: bool)
    ensures
        r == (edit_distance(a@, b@) <= max_distance),
{
    if max_distance == 0 {
        proof {
            lemma_zero_distance(a@, b@);
        }
        return same_chars(a, b);
    }
    let n = a.len();
    let m = b.len();
    let mut arr: Vec<usize> = Vec::new();
    let mut j: usize = 0;
    while j < m
        invariant
            j <= m,
            arr@.len() == j,
            forall|k: int| 0 <= k < j ==> arr@[k] == m - k,
        decreases m - j,
    {
        arr.push(m - j);
        j += 1;
    }
    arr.push(0);
    assert forall|k: int| 0 <= k <= m implies arr@[k] == dist_from(a@, b@, n as int, k) by {}
    let mut i: usize = n;
    while i > 0
        invariant
            i <= n,
            n == a@.len(),
            m == b@.len(),
            arr@.len() == m + 1,
            forall|k: int| 0 <= k <= m ==> arr@[k] == dist_from(a@, b@, i as int, k),
        decreases i,
    {
        i -= 1;
        let mut dia = arr[m];
        arr[m] = n - i;
        let mut j: usize = m;
        while j > 0
            invariant
                i < n,
                j <= m,
                n == a@.len(),
                m == b@.len(),
                arr@.len() == m + 1,
                forall|k: int| j <= k <= m ==> arr@[k] == dist_from(a@, b@, i as int, k),
                forall|k: int| 0 <= k < j ==> arr@[k] == dist_from(a@, b@, i + 1, k),
                dia == dist_from(a@, b@, i + 1, j as int),
            decreases j,
        {
            j -= 1;
            let tmp = arr[j];
            proof {
                lemma_dist_upper(a@, b@, i + 1, j + 1);
            }
            let v = if a[i] != b[j] {
                let up = arr[j];
                let left = arr[j + 1];
                let low = if up <= left && up <= dia {
                    up
                } else if left <= dia {
                    left
                } else {
                    dia
                };
                low + 1
            } else {
                dia
            };
            arr[j] = v;
            dia = tmp;
        }
    }
    arr[0] <= max_distance
}

/// Cost of walking `a[i..]` and `b[j..]` under an edit script `m`: equal
/// characters advance both sides for free; at a mismatch the low two bits of
/// `m` say which side(s) advance (bit 0: `a`, bit 1: `b`) at a cost of one,
/// and `m` moves on to its next two bits. A mismatch after the script has run
/// out costs two, and a side left over at the end costs its length.
pub open spec fn script_cost(a: Seq<char>, b: Seq<char>, i: int, j: int, m: nat) -> nat
    decreases (a.len() - i) + (b.len() - j), m,
    when 0 <= i <= a.len() && 0 <= j <= b.len()
{
    if i >= a.len() {
        (b.len() - j) as nat
    } else if j >= b.len() {
        (a.len() - i) as nat
    } else if a[i] == b[j] {
        script_cost(a, b, i + 1, j + 1, m)
    } else if m == 0 {
        2
    } else {
        1 + script_cost(
            a,
            b,
            if m % 2 == 1 {
                i + 1
            } else {
                i
            },
            if (m / 2) % 2 == 1 {
                j + 1
            } else {
                j
            },
            m / 4,
        )
    }
}

/// How an edit operation changes the length difference of what is left:
/// advancing `a` alone lowers it by one, advancing `b` alone raises it.
pub open spec fn op_shift(op: nat) -> int {
    if op == 1 {
        1
    } else if op == 2 {
        -1
    } else {
        0
    }
}

/// `m` encodes exactly `d` non-empty operations which together consume `e`
/// more characters of the first sequence than of the second.
pub open spec fn valid_script(m: nat, d: nat, e: int) -> bool
    decreases d,
{
    if d == 0 {
        m == 0 && e == 0
    } else {
        m % 4 != 0 && valid_script(m / 4, (d - 1) as nat, e - op_shift(m % 4))
    }
}

/// The scripts tried for a distance budget `d` and a length difference
/// `diff`: every script of exactly `d` operations whose net effect removes the
/// length difference.
pub open spec fn scripts_spec(d: nat, diff: nat) -> Seq<u8> {
    if d == 0 {
        seq![0u8]
    } else if d == 1 {
        if diff == 0 {
            seq![3u8]
        } else {
            seq![1u8]
        }
    } else if d == 2 {
        if diff == 0 {
            seq![15u8, 9, 6]
        } else if diff == 1 {
            seq![13u8, 7]
        } else {
            seq![5u8]
        }
    } else {
        if diff == 0 {
            seq![63u8, 39, 45, 57, 54, 30, 27]
        } else if diff == 1 {
            seq![61u8, 55, 31, 37, 25, 22]
        } else if diff == 2 {
            seq![53u8, 29, 23]
        } else {
            seq![21u8]
        }
    }
}

/// A walk that stays within the length of a well-formed script bounds the
/// true distance from above.
pub proof fn lemma_script_sound(a: Seq<char>, b: Seq<char>, i: int, j: int, m: nat, d: nat, e: int)
    requires
        0 <= i <= a.len(),
        0 <= j <= b.len(),
        valid_script(m, d, e),
        script_cost(a, b, i, j, m) <= d,
    ensures
        dist_from(a, b, i, j) <= script_cost(a, b, i, j, m),
    decreases (a.len() - i) + (b.len() - j),
{
    if i < a.len() && j < b.len() {
        if a[i] == b[j] {
            lemma_script_sound(a, b, i + 1, j + 1, m, d, e);
        } else if m == 0 {
        } else {
            let op = m % 4;
            let ni = if m % 2 == 1 { i + 1 } else { i };
            let nj = if (m / 2) % 2 == 1 { j + 1 } else { j };
            assert(op == 1 ==> ni == i + 1 && nj == j);
            assert(op == 2 ==> ni == i && nj == j + 1);
            assert(op == 3 ==> ni == i + 1 && nj == j + 1);
            lemma_script_sound(a, b, ni, nj, m / 4, (d - 1) as nat, e - op_shift(op));
        }
    }
}

/// Some well-formed script of `d` operations exists for every length
/// difference that `d` operations can absorb.
pub proof fn lemma_script_exists(d: nat, e: int)
    requires
        -d <= e <= d,
    ensures
        exists|m: nat| #[trigger] valid_script(m, d, e),
    decreases d,
{
    if d == 0 {
        assert(valid_script(0, 0, 0));
    } else {
        let op: nat = if e > 0 {
            1
        } else if e < 0 {
            2
        } else {
            3
        };
        lemma_script_exists((d - 1) as nat, e - op_shift(op));
        let m2 = choose|m2: nat| #[trigger] valid_script(m2, (d - 1) as nat, e - op_shift(op));
        let m = op + 4 * m2;
        assert(m % 4 == op && m / 4 == m2);
        assert(valid_script(m, d, e));
    }
}

/// When the distance is within `d`, some well-formed script of `d` operations
/// walks the two suffixes at a cost within `d`.
pub proof fn lemma_script_complete(a: Seq<char>, b: Seq<char>, i: int, j: int, d: nat)
    requires
        0 <= i <= a.len(),
        0 <= j <= b.len(),
        dist_from(a, b, i, j) <= d,
    ensures
        exists|m: nat|
            #[trigger] valid_script(m, d, (a.len() - i) - (b.len() - j)) && script_cost(
                a,
                b,
                i,
                j,
                m,
            ) <= d,
    decreases (a.len() - i) + (b.len() - j),
{
    let e = (a.len() - i) - (b.len() - j);
    if i >= a.len() || j >= b.len() {
        lemma_script_exists(d, e);
        let m = choose|m: nat| #[trigger] valid_script(m, d, e);
        assert(script_cost(a, b, i, j, m) == dist_from(a, b, i, j));
    } else if a[i] == b[j] {
        lemma_script_complete(a, b, i + 1, j + 1, d);
        let m = choose|m: nat|
            #[trigger] valid_script(m, d, e) && script_cost(a, b, i + 1, j + 1, m) <= d;
        assert(script_cost(a, b, i, j, m) == script_cost(a, b, i + 1, j + 1, m));
    } else {
        let dd = (d - 1) as nat;
        let op: nat = if dist_from(a, b, i + 1, j) <= dd {
            1
        } else if dist_from(a, b, i, j + 1) <= dd {
            2
        } else {
            3
        };
        let ni = if op == 2 { i } else { i + 1 };
        let nj = if op == 1 { j } else { j + 1 };
        lemma_script_complete(a, b, ni, nj, dd);
        let m2 = choose|m2: nat|
            #[trigger] valid_script(m2, dd, e - op_shift(op)) && script_cost(a, b, ni, nj, m2)
                <= dd;
        let m = op + 4 * m2;
        assert(m % 4 == op && m / 4 == m2);
        assert(m % 2 == op % 2 && (m / 2) % 2 == op / 2);
        assert(valid_script(m, d, e));
        assert(script_cost(a, b, i, j, m) == 1 + script_cost(a, b, ni, nj, m2));
    }
}

/// Every well-formed script for a budget of at most three and a
/// non-negative length difference stands in the table, and every entry of the
/// table is well-formed.
pub proof fn lemma_scripts_table(d: nat, diff: nat)
    requires
        d <= 3,
        diff <= d,
    ensures
        forall|k: int|
            0 <= k < scripts_spec(d, diff).len() ==> #[trigger] valid_script(
                scripts_spec(d, diff)[k] as nat,
                d,
                diff as int,
            ),
        forall|m: nat|
            #[trigger] valid_script(m, d, diff as int) ==> exists|k: int|
                0 <= k < scripts_spec(d, diff).len() && scripts_spec(d, diff)[k] == m,
{
    reveal_with_fuel(valid_script, 4);
    let s = scripts_spec(d, diff);
    assert forall|k: int| 0 <= k < s.len() implies #[trigger] valid_script(s[k] as nat, d, diff as int) by {
        let x = s[k] as nat;
        assert(x / 4 / 4 / 4 / 4 == 0);
    }
    assert forall|m: nat| #[trigger] valid_script(m, d, diff as int) implies exists|k: int|
        0 <= k < s.len() && s[k] == m by {
        assert(m / 4 / 4 / 4 / 4 == 0 || d == 0);
        if d == 0 && diff == 0 {
            assert(m == 0);
            if m == 0 {
                assert(s[0] == m);
            }
        } else if d == 1 && diff == 0 {
            assert(m == 3);
            if m == 3 {
                assert(s[0] == m);
            }
        } else if d == 1 && diff == 1 {
            assert(m == 1);
            if m == 1 {
                assert(s[0] == m);
            }
        } else if d == 2 && diff == 0 {
            assert(m == 15 || m == 9 || m == 6);
            if m == 15 {
                assert(s[0] == m);
            } else if m == 9 {
                assert(s[1] == m);
            } else if m == 6 {
                assert(s[2] == m);
            }
        } else if d == 2 && diff == 1 {
            assert(m == 13 || m == 7);
            if m == 13 {
                assert(s[0] == m);
            } else if m == 7 {
                assert(s[1] == m);
            }
        } else if d == 2 && diff == 2 {
            assert(m == 5);
            if m == 5 {
                assert(s[0] == m);
            }
        } else if d == 3 && diff == 0 {
            assert(m == 63 || m == 39 || m == 45 || m == 57 || m == 54 || m == 30 || m == 27);
            if m == 63 {
                assert(s[0] == m);
            } else if m == 39 {
                assert(s[1] == m);
            } else if m == 45 {
                assert(s[2] == m);
            } else if m == 57 {
                assert(s[3] == m);
            } else if m == 54 {
                assert(s[4] == m);
            } else if m == 30 {
                assert(s[5] == m);
            } else if m == 27 {
                assert(s[6] == m);
            }
        } else if d == 3 && diff == 1 {
            assert(m == 61 || m == 55 || m == 31 || m == 37 || m == 25 || m == 22);
            if m == 61 {
                assert(s[0] == m);
            } else if m == 55 {
                assert(s[1] == m);
            } else if m == 31 {
                assert(s[2] == m);
            } else if m == 37 {
                assert(s[3] == m);
            } else if m == 25 {
                assert(s[4] == m);
            } else if m == 22 {
                assert(s[5] == m);
            }
        } else if d == 3 && diff == 2 {
            assert(m == 53 || m == 29 || m == 23);
            if m == 53 {
                assert(s[0] == m);
            } else if m == 29 {
                assert(s[1] == m);
            } else if m == 23 {
                assert(s[2] == m);
            }
        } else if d == 3 && diff == 3 {
            assert(m == 21);
            if m == 21 {
                assert(s[0] == m);
            }
        }
    }
}


/// The scripts tried for a budget of at most three and a length difference
/// within that budget.
pub fn edit_scripts(max_distance: usize, len_diff: usize) -> (r: Vec<u8>)
    requires
        max_distance <= 3,
        len_diff <= max_distance,
    ensures
        r@ == scripts_spec(max_distance as nat, len_diff as nat),
{
    let r = if max_distance == 0 {
        vec![0u8]
    } else if max_distance == 1 {
        if len_diff == 0 {
            vec![3u8]
        } else {
            vec![1u8]
        }
    } else if max_distance == 2 {
        if len_diff == 0 {
            vec![15u8, 9, 6]
        } else if len_diff == 1 {
            vec![13u8, 7]
        } else {
            vec![5u8]
        }
    } else {
        if len_diff == 0 {
            vec![63u8, 39, 45, 57, 54, 30, 27]
        } else if len_diff == 1 {
            vec![61u8, 55, 31, 37, 25, 22]
        } else if len_diff == 2 {
            vec![53u8, 29, 23]
        } else {
            vec![21u8]
        }
    };
    assert(r@ =~= scripts_spec(max_distance as nat, len_diff as nat));
    r
}

/// Walks both sequences under one edit script and tells whether the walk
/// costs at most `max_distance`; it gives up as soon as the budget is spent.
pub fn script_within(first: &[char], second: &[char], script: u8, max_distance: usize) -> (r: bool)
    ensures
        r == (script_cost(first@, second@, 0, 0, script as nat) <= max_distance),
{
    let n1 = first.len();
    let n2 = second.len();
    let mut i: usize = 0;
    let mut j: usize = 0;
    let mut ops: u8 = script;
    let mut used: usize = 0;
    loop
        invariant
            i <= n1,
            j <= n2,
            n1 == first@.len(),
            n2 == second@.len(),
            used <= max_distance,
            used + script_cost(first@, second@, i as int, j as int, ops as nat) == script_cost(
                first@,
                second@,
                0,
                0,
                script as nat,
            ),
        decreases (n1 - i) + (n2 - j), ops,
    {
        if i == n1 {
            return n2 - j <= max_distance - used;
        }
        if j == n2 {
            return n1 - i <= max_distance - used;
        }
        if first[i] == second[j] {
            i += 1;
            j += 1;
        } else {
            if ops == 0 {
                return max_distance - used >= 2;
            }
            if used == max_distance {
                return false;
            }
            used += 1;
            if ops % 2 == 1 {
                i += 1;
            }
            if (ops / 2) % 2 == 1 {
                j += 1;
            }
            ops = ops / 4;
        }
    }
}

/// Whether any of the given scripts walks `first` and `second` within
/// `max_distance`.
pub fn fast_mbleven(first: &[char], second: &[char], scripts: &[u8], max_distance: usize) -> (r:
    bool)
    ensures
        r == exists|k: int|
            0 <= k < scripts@.len() && #[trigger] script_cost(
                first@,
                second@,
                0,
                0,
                scripts@[k] as nat,
            ) <= max_distance,
{
    let mut k: usize = 0;
    while k < scripts.len()
        invariant
            k <= scripts@.len(),
            forall|t: int|
                0 <= t < k ==> !(#[trigger] script_cost(first@, second@, 0, 0, scripts@[t] as nat)
                    <= max_distance),
        decreases scripts@.len() - k,
    {
        if script_within(first, second, scripts[k], max_distance) {
            return true;
        }
        k += 1;
    }
    false
}

/// Some script of the table for budget `d` walks `longer` against `shorter`
/// within `d`.
pub open spec fn scripts_accept(longer: Seq<char>, shorter: Seq<char>, d: nat) -> bool {
    let scripts = scripts_spec(d, (longer.len() - shorter.len()) as nat);
    exists|k: int|
        0 <= k < scripts.len() && #[trigger] script_cost(longer, shorter, 0, 0, scripts[k] as nat)
            <= d
}

/// Where both apply, the script search and the distance agree: for a budget
/// of at most three and a length difference within it, some tabled script
/// succeeds exactly when the edit distance is within the budget.
pub proof fn lemma_scripts_agree_with_distance(longer: Seq<char>, shorter: Seq<char>, d: nat)
    requires
        d <= 3,
        shorter.len() <= longer.len() <= shorter.len() + d,
    ensures
        scripts_accept(longer, shorter, d) == (edit_distance(longer, shorter) <= d),
{
    let diff = (longer.len() - shorter.len()) as nat;
    let scripts = scripts_spec(d, diff);
    lemma_scripts_table(d, diff);
    assert(longer.len() - 0 - (shorter.len() - 0) == diff);
    if scripts_accept(longer, shorter, d) {
        let k = choose|k: int|
            0 <= k < scripts.len() && #[trigger] script_cost(
                longer,
                shorter,
                0,
                0,
                scripts[k] as nat,
            ) <= d;
        assert(valid_script(scripts[k] as nat, d, diff as int));
        lemma_script_sound(longer, shorter, 0, 0, scripts[k] as nat, d, diff as int);
    }
    if edit_distance(longer, shorter) <= d {
        lemma_script_complete(longer, shorter, 0, 0, d);
        let m = choose|m: nat|
            #[trigger] valid_script(m, d, diff as int) && script_cost(longer, shorter, 0, 0, m)
                <= d;
        let k = choose|k: int| 0 <= k < scripts.len() && scripts[k] == m;
        assert(script_cost(longer, shorter, 0, 0, scripts[k] as nat) <= d);
    }
}

/// Runs the precomputed scripts for `max_distance` on `longer` against
/// `shorter`, whose length is at most `max_distance` below it.
pub fn mbleven_ordered(longer: &[char], shorter: &[char], max_distance: usize) -> (r: bool)
    requires
        max_distance <= 3,
        shorter@.len() <= longer@.len() <= shorter@.len() + max_distance,
    ensures
        r == scripts_accept(longer@, shorter@, max_distance as nat),
        r == (edit_distance(longer@, shorter@) <= max_distance),
{
    let diff = longer.len() - shorter.len();
    let scripts = edit_scripts(max_distance, diff);
    let r = fast_mbleven(longer, shorter, scripts.as_slice(), max_distance);
    proof {
        lemma_scripts_agree_with_distance(longer@, shorter@, max_distance as nat);
    }
    r
}

/// Decides `edit_distance(a, b) <= max_distance` for budgets of at most three
/// by trying the precomputed edit scripts, after ruling out sequences whose
/// lengths differ by more than the budget.
pub fn mbleven(a: &[char], b: &[char], max_distance: usize) -> (r: bool)
    requires
        max_distance <= 3,
    ensures
        r == (edit_distance(a@, b@) <= max_distance),
{
    if max_distance == 0 {
        proof {
            lemma_zero_distance(a@, b@);
        }
        return same_chars(a, b);
    }
    proof {
        lemma_symmetric(a@, b@);
    }
    if a.len() >= b.len() {
        if a.len() - b.len() > max_distance {
            proof {
                lemma_length_gap(a@, b@, max_distance as nat);
            }
            return false;
        }
        mbleven_ordered(a, b, max_distance)
    } else {
        if b.len() - a.len() > max_distance {
            proof {
                lemma_length_gap(a@, b@, max_distance as nat);
            }
            return false;
        }
        mbleven_ordered(b, a, max_distance)
    }
}

/// Whether `a` and `b` are within `max_distance` edits: the script search for
/// budgets of at most three, the dynamic program beyond.
pub fn within_distance(a: &[char], b: &[char], max_distance: usize) -> (r: bool)
    ensures
        r == (edit_distance(a@, b@) <= max_distance),
{
    if max_distance <= 3 {
        mbleven(a, b, max_distance)
    } else {
        wagner_fischer(a, b, max_distance)
    }
}

} // verus!
