//! How many different rows of marks of one length there can be.

use vstd::prelude::*;
use vstd::set_lib::{lemma_int_range, lemma_len_subset, set_int_range};

verus! {

/// Two to the power `n`.
pub open spec fn two_pow(n: nat) -> nat
    decreases n,
{
    if n == 0 {
        1
    } else {
        2 * two_pow((n - 1) as nat)
    }
}

/// The number that a row of marks writes in binary, the first mark counting
/// least.
pub open spec fn encode(s: Seq<bool>) -> nat
    decreases s.len(),
{
    if s.len() == 0 {
        0
    } else {
        (if s[0] {
            1nat
        } else {
            0nat
        }) + 2 * encode(s.drop_first())
    }
}

/// A row of `n` marks writes a number below two to the `n`.
pub proof fn lemma_encode_bound(s: Seq<bool>)
    ensures
        encode(s) < two_pow(s.len()),
    decreases s.len(),
{
    if s.len() > 0 {
        lemma_encode_bound(s.drop_first());
    }
}

/// Two rows of one length that write the same number are the same row.
pub proof fn lemma_encode_injective(s: Seq<bool>, t: Seq<bool>)
    requires
        s.len() == t.len(),
        encode(s) == encode(t),
    ensures
        s == t,
    decreases s.len(),
{
    if s.len() > 0 {
        let a = encode(s.drop_first());
        let b = encode(t.drop_first());
        assert(s[0] == t[0] && a == b) by {
            if s[0] != t[0] {
                assert(false);
            }
        }
        lemma_encode_injective(s.drop_first(), t.drop_first());
        assert(s =~= seq![s[0]] + s.drop_first());
        assert(t =~= seq![t[0]] + t.drop_first());
    } else {
        assert(s =~= t);
    }
}

/// Whether the rows are all `n` long and no two of them are the same.
pub open spec fn distinct_rows(rows: Seq<Seq<bool>>, n: nat) -> bool {
    &&& forall|i: int| 0 <= i < rows.len() ==> (#[trigger] rows[i]).len() == n
    &&& forall|i: int, j: int| 0 <= i < j < rows.len() ==> #[trigger] rows[i] != #[trigger] rows[j]
}

/// There are at most two to the `n` different rows of `n` marks.
pub proof fn lemma_distinct_count(rows: Seq<Seq<bool>>, n: nat)
    requires
        distinct_rows(rows, n),
    ensures
        rows.len() <= two_pow(n),
{
    let codes = Seq::new(rows.len(), |i: int| encode(rows[i]) as int);
    assert forall|i: int, j: int| 0 <= i < codes.len() && 0 <= j < codes.len() && i != j implies codes[i]
        != codes[j] by {
        if codes[i] == codes[j] {
            lemma_encode_injective(rows[i], rows[j]);
            if i < j {
                assert(rows[i] != rows[j]);
            } else {
                assert(rows[j] != rows[i]);
            }
        }
    }
    assert(codes.no_duplicates());
    codes.unique_seq_to_set();
    lemma_int_range(0, two_pow(n) as int);
    assert forall|x: int| codes.to_set().contains(x) implies set_int_range(
        0,
        two_pow(n) as int,
    ).contains(x) by {
        let i = choose|i: int| 0 <= i < codes.len() && codes[i] == x;
        lemma_encode_bound(rows[i]);
    }
    lemma_len_subset(codes.to_set(), set_int_range(0, two_pow(n) as int));
}

} // verus!
