//! Collision resolution: when a target name is already present in the
//! directory, the first free counter variant `stem_<n>.ext` is taken.

use vstd::prelude::*;
use crate::naming::{UNDERSCORE, stem_of, ext_of, last_dot, copy_range, append_bytes};
use crate::naming::lemma_split_parts;

verus! {

broadcast use {vstd::set::group_set_axioms, vstd::seq_lib::seq_to_set_is_finite};

/// Decimal digits of `n`, most significant first.
pub open spec fn dec_digits(n: nat) -> Seq<u8>
    decreases n,
{
    if n < 10 {
        seq![(48 + n) as u8]
    } else {
        dec_digits(n / 10).push((48 + n % 10) as u8)
    }
}

/// The candidate name for a counter: stem, underscore, digits, extension.
pub open spec fn spec_candidate(stem: Seq<u8>, ext: Seq<u8>, c: nat) -> Seq<u8> {
    stem + seq![UNDERSCORE] + dec_digits(c) + ext
}

/// The views of a list of byte names.
pub open spec fn name_views(names: Seq<Vec<u8>>) -> Seq<Seq<u8>> {
    names.map_values(|v: Vec<u8>| v@)
}

/// The first counter from `c` whose candidate is not taken, searching at
/// most `fuel` steps.
pub open spec fn first_free(names: Seq<Seq<u8>>, stem: Seq<u8>, ext: Seq<u8>, c: nat, fuel: nat) -> nat
    decreases fuel,
{
    if fuel == 0 {
        c
    } else if !names.contains(spec_candidate(stem, ext, c)) {
        c
    } else {
        first_free(names, stem, ext, c + 1, (fuel - 1) as nat)
    }
}

/// What resolution returns: the desired name when it is free, else the
/// candidate of the first free counter, starting at 1.
pub open spec fn spec_resolve(names: Seq<Seq<u8>>, desired: Seq<u8>) -> Seq<u8> {
    if !names.contains(desired) {
        desired
    } else {
        spec_candidate(
            stem_of(desired),
            ext_of(desired),
            first_free(names, stem_of(desired), ext_of(desired), 1, names.len() + 1),
        )
    }
}

proof fn lemma_dec_digits_len(n: nat)
    ensures
        dec_digits(n).len() >= 1,
        n >= 10 ==> dec_digits(n).len() >= 2,
    decreases n,
{
    if n >= 10 {
        lemma_dec_digits_len(n / 10);
    }
}

/// Distinct counters render to distinct digit strings.
proof fn lemma_dec_digits_inj(a: nat, b: nat)
    requires
        dec_digits(a) == dec_digits(b),
    ensures
        a == b,
    decreases a,
{
    lemma_dec_digits_len(a);
    lemma_dec_digits_len(b);
    if a < 10 && b < 10 {
        assert(dec_digits(a) == seq![(48 + a) as u8]);
        assert(dec_digits(b) == seq![(48 + b) as u8]);
        assert(dec_digits(a)[0] == dec_digits(b)[0]);
        assert(seq![(48 + a) as u8][0] == (48 + a) as u8);
        assert(seq![(48 + b) as u8][0] == (48 + b) as u8);
        assert((48 + a) as u8 == (48 + b) as u8);
        assert((48 + a) as u8 == 48 + a);
        assert((48 + b) as u8 == 48 + b);
        assert(a == b);
    } else if a < 10 || b < 10 {
        assert(dec_digits(a).len() == dec_digits(b).len());
        assert(a < 10 ==> dec_digits(a).len() == 1);
        assert(b < 10 ==> dec_digits(b).len() == 1);
    } else {
        assert(dec_digits(a).last() == (48 + a % 10) as u8);
        assert(dec_digits(b).last() == (48 + b % 10) as u8);
        assert(a % 10 == b % 10);
        assert(dec_digits(a).drop_last() =~= dec_digits(a / 10));
        assert(dec_digits(b).drop_last() =~= dec_digits(b / 10));
        lemma_dec_digits_inj(a / 10, b / 10);
        assert(a == 10 * (a / 10) + a % 10) by {
            vstd::arithmetic::div_mod::lemma_fundamental_div_mod(a as int, 10);
        }
        assert(b == 10 * (b / 10) + b % 10) by {
            vstd::arithmetic::div_mod::lemma_fundamental_div_mod(b as int, 10);
        }
        assert(a == b);
    }
}

/// Distinct counters give distinct candidate names.
proof fn lemma_candidate_inj(stem: Seq<u8>, ext: Seq<u8>, c1: nat, c2: nat)
    requires
        spec_candidate(stem, ext, c1) == spec_candidate(stem, ext, c2),
    ensures
        c1 == c2,
{
    let d1 = dec_digits(c1);
    let d2 = dec_digits(c2);
    assert(spec_candidate(stem, ext, c1).len() == stem.len() + 1 + d1.len() + ext.len());
    assert(spec_candidate(stem, ext, c2).len() == stem.len() + 1 + d2.len() + ext.len());
    assert(d1.len() == d2.len());
    assert(d1 =~= d2) by {
        assert(forall|i: int|
            0 <= i < d1.len() ==> d1[i] == spec_candidate(stem, ext, c1)[stem.len() + 1 + i]
                && d2[i] == spec_candidate(stem, ext, c2)[stem.len() + 1 + i]);
    }
    lemma_dec_digits_inj(c1, c2);
}

/// The candidates with counters `1..=k`.
spec fn cand_set(stem: Seq<u8>, ext: Seq<u8>, k: nat) -> Set<Seq<u8>> {
    Set::new(|x: Seq<u8>| exists|j: nat| 1 <= j <= k && x == spec_candidate(stem, ext, j))
}

proof fn lemma_cand_set_card(stem: Seq<u8>, ext: Seq<u8>, k: nat)
    ensures
        cand_set(stem, ext, k).finite(),
        cand_set(stem, ext, k).len() == k,
    decreases k,
{
    if k == 0 {
        assert(cand_set(stem, ext, 0) =~= Set::<Seq<u8>>::empty());
    } else {
        lemma_cand_set_card(stem, ext, (k - 1) as nat);
        let prev = cand_set(stem, ext, (k - 1) as nat);
        let this = spec_candidate(stem, ext, k);
        assert(cand_set(stem, ext, k) =~= prev.insert(this)) by {
            assert(forall|x: Seq<u8>|
                prev.insert(this).contains(x) ==> cand_set(stem, ext, k).contains(x));
            assert forall|x: Seq<u8>| cand_set(stem, ext, k).contains(x) implies prev.insert(
                this,
            ).contains(x) by {
                let j = choose|j: nat| 1 <= j <= k && x == spec_candidate(stem, ext, j);
                if j < k {
                    assert(prev.contains(x));
                }
            }
        }
        if prev.contains(this) {
            let j = choose|j: nat| 1 <= j <= k - 1 && this == spec_candidate(stem, ext, j);
            lemma_candidate_inj(stem, ext, j, k);
            assert(false);
        }
    }
}

/// A candidate is always longer than the desired name it varies.
proof fn lemma_candidate_longer(stem: Seq<u8>, ext: Seq<u8>, c: nat)
    ensures
        spec_candidate(stem, ext, c).len() > (stem + ext).len(),
{
    lemma_dec_digits_len(c);
}

/// If the desired name and the candidates `1..=k` are all taken, the
/// directory holds at least `k + 1` names.
proof fn lemma_pigeonhole(stem: Seq<u8>, ext: Seq<u8>, names: Seq<Seq<u8>>, k: nat)
    requires
        names.contains(stem + ext),
        forall|j: nat| 1 <= j <= k ==> names.contains(#[trigger] spec_candidate(stem, ext, j)),
    ensures
        k + 1 <= names.len(),
{
    lemma_cand_set_card(stem, ext, k);
    let cs = cand_set(stem, ext, k);
    let all = cs.insert(stem + ext);
    if cs.contains(stem + ext) {
        let j = choose|j: nat| 1 <= j <= k && stem + ext == spec_candidate(stem, ext, j);
        lemma_candidate_longer(stem, ext, j);
        assert(false);
    }
    assert(all.len() == k + 1);
    assert(all.subset_of(names.to_set())) by {
        assert forall|x: Seq<u8>| all.contains(x) implies names.to_set().contains(x) by {
            if x == stem + ext {
                assert(names.contains(x));
            } else {
                let j = choose|j: nat| 1 <= j <= k && x == spec_candidate(stem, ext, j);
                assert(names.contains(spec_candidate(stem, ext, j)));
            }
        }
    }
    names.lemma_cardinality_of_set();
    vstd::set_lib::lemma_len_subset(all, names.to_set());
}

/// Counters below the first free one are all taken: resolution does not
/// skip a free variant.
proof fn lemma_first_free_min(names: Seq<Seq<u8>>, stem: Seq<u8>, ext: Seq<u8>, c: nat, fuel: nat)
    ensures
        forall|j: nat|
            c <= j < first_free(names, stem, ext, c, fuel) ==> names.contains(
                #[trigger] spec_candidate(stem, ext, j),
            ),
    decreases fuel,
{
    if fuel > 0 && names.contains(spec_candidate(stem, ext, c)) {
        lemma_first_free_min(names, stem, ext, c + 1, (fuel - 1) as nat);
    }
}

/// When the desired name is taken, what resolution returns is the candidate
/// of a counter at least 1, and every lower counter's candidate is taken.
pub proof fn lemma_resolve_first(names: Seq<Seq<u8>>, desired: Seq<u8>)
    requires
        names.contains(desired),
    ensures
        ({
            let c = first_free(names, stem_of(desired), ext_of(desired), 1, names.len() + 1);
            &&& spec_resolve(names, desired) == spec_candidate(stem_of(desired), ext_of(desired), c)
            &&& c >= 1
            &&& forall|j: nat|
                1 <= j < c ==> names.contains(
                    #[trigger] spec_candidate(stem_of(desired), ext_of(desired), j),
                )
        }),
{
    lemma_first_free_min(names, stem_of(desired), ext_of(desired), 1, names.len() + 1);
    lemma_first_free_at_least(names, stem_of(desired), ext_of(desired), 1, names.len() + 1);
}

proof fn lemma_first_free_at_least(names: Seq<Seq<u8>>, stem: Seq<u8>, ext: Seq<u8>, c: nat, fuel: nat)
    ensures
        first_free(names, stem, ext, c, fuel) >= c,
    decreases fuel,
{
    if fuel > 0 && names.contains(spec_candidate(stem, ext, c)) {
        lemma_first_free_at_least(names, stem, ext, c + 1, (fuel - 1) as nat);
    }
}

/// Byte-wise equality of two names.
pub fn bytes_eq(a: &Vec<u8>, b: &Vec<u8>) -> (r: bool)
    ensures
        r == (a@ == b@),
{
    if a.len() != b.len() {
        return false;
    }
    let mut i: usize = 0;
    while i < a.len()
        invariant
            i <= a.len() == b.len(),
            forall|j: int| 0 <= j < i ==> a@[j] == b@[j],
        decreases a.len() - i,
    {
        if a[i] != b[i] {
            return false;
        }
        i = i + 1;
    }
    proof {
        assert(a@ =~= b@);
    }
    true
}

/// Whether a name is present in a directory listing.
pub fn contains_name(names: &Vec<Vec<u8>>, x: &Vec<u8>) -> (r: bool)
    ensures
        r == name_views(names@).contains(x@),
{
    let mut i: usize = 0;
    while i < names.len()
        invariant
            i <= names.len(),
            forall|j: int| 0 <= j < i ==> names@[j]@ != x@,
        decreases names.len() - i,
    {
        if bytes_eq(&names[i], x) {
            proof {
                assert(name_views(names@)[i as int] == x@);
            }
            return true;
        }
        i = i + 1;
    }
    proof {
        assert(forall|j: int|
            0 <= j < name_views(names@).len() ==> #[trigger] name_views(names@)[j] == names@[j]@);
        if name_views(names@).contains(x@) {
            let j = choose|j: int|
                0 <= j < name_views(names@).len() && name_views(names@)[j] == x@;
            assert(false);
        }
    }
    false
}

/// Renders a counter in decimal.
pub fn dec_bytes(n: usize) -> (r: Vec<u8>)
    ensures
        r@ == dec_digits(n as nat),
{
    if n == 0 {
        let mut out: Vec<u8> = Vec::new();
        out.push(48);
        proof {
            assert(out@ =~= dec_digits(0));
        }
        return out;
    }
    let mut rev: Vec<u8> = Vec::new();
    let mut m: usize = n;
    while m > 0
        invariant
            dec_digits(n as nat) == if m > 0 {
                dec_digits(m as nat) + rev@.reverse()
            } else {
                rev@.reverse()
            },
        decreases m,
    {
        let d: u8 = 48 + (m % 10) as u8;
        rev.push(d);
        proof {
            assert(rev@.reverse() =~= seq![d] + rev@.drop_last().reverse());
            if m >= 10 {
                assert(dec_digits(m as nat) == dec_digits((m / 10) as nat).push(d));
                assert(dec_digits((m / 10) as nat).push(d) + rev@.drop_last().reverse()
                    =~= dec_digits((m / 10) as nat) + (seq![d] + rev@.drop_last().reverse()));
            } else {
                assert(dec_digits(m as nat) =~= seq![d]);
                assert(seq![d] + rev@.drop_last().reverse() =~= rev@.reverse());
            }
        }
        m = m / 10;
    }
    let mut out: Vec<u8> = Vec::new();
    let mut i: usize = rev.len();
    while i > 0
        invariant
            i <= rev.len(),
            out@.len() == rev@.len() - i,
            forall|k: int| 0 <= k < out@.len() ==> out@[k] == rev@[rev@.len() - 1 - k],
        decreases i,
    {
        i = i - 1;
        out.push(rev[i]);
    }
    proof {
        assert(out@ =~= rev@.reverse());
    }
    out
}

/// Builds the candidate name for a counter.
fn make_candidate(stem: &Vec<u8>, ext: &Vec<u8>, c: usize) -> (r: Vec<u8>)
    ensures
        r@ == spec_candidate(stem@, ext@, c as nat),
{
    let digits = dec_bytes(c);
    let mut cand = copy_range(stem, 0, stem.len());
    proof {
        assert(stem@.subrange(0, stem@.len() as int) =~= stem@);
    }
    cand.push(UNDERSCORE);
    append_bytes(&mut cand, &digits);
    append_bytes(&mut cand, &ext);
    proof {
        assert(cand@ =~= spec_candidate(stem@, ext@, c as nat));
    }
    cand
}

/// Finds a name that is free in the directory: the desired name itself, or
/// else its first free counter variant. The returned name is never among
/// `names`.
pub fn resolve(names: &Vec<Vec<u8>>, desired: &Vec<u8>) -> (r: Vec<u8>)
    ensures
        r@ == spec_resolve(name_views(names@), desired@),
        !name_views(names@).contains(r@),
{
    if !contains_name(names, desired) {
        let r = copy_range(desired, 0, desired.len());
        proof {
            assert(desired@.subrange(0, desired@.len() as int) =~= desired@);
        }
        return r;
    }
    let ghost vs = name_views(names@);
    let stem_end = match crate::naming::find_last_dot(desired) {
        Some(i) => i,
        None => desired.len(),
    };
    let stem = copy_range(desired, 0, stem_end);
    let ext = copy_range(desired, stem_end, desired.len());
    proof {
        if last_dot(desired@) is None {
            assert(desired@.subrange(0, desired@.len() as int) =~= desired@);
            assert(desired@.subrange(desired@.len() as int, desired@.len() as int)
                =~= Seq::<u8>::empty());
        }
        assert(stem@ == stem_of(desired@));
        assert(ext@ == ext_of(desired@));
        lemma_split_parts(desired@);
        assert(vs.contains(stem@ + ext@));
        lemma_pigeonhole(stem@, ext@, vs, 0);
    }
    let ghost fuel_all = (vs.len() + 1) as nat;
    let n_names = names.len();
    proof {
        assert(vs.len() == names@.len());
    }
    let mut c: usize = 1;
    loop
        invariant
            1 <= c <= vs.len(),
            vs.len() == n_names <= usize::MAX,
            vs == name_views(names@),
            stem@ == stem_of(desired@),
            ext@ == ext_of(desired@),
            vs.contains(stem@ + ext@),
            vs.contains(desired@),
            fuel_all == vs.len() + 1,
            forall|j: nat| 1 <= j < c ==> vs.contains(#[trigger] spec_candidate(stem@, ext@, j)),
            first_free(vs, stem@, ext@, c as nat, (fuel_all - (c - 1)) as nat) == first_free(
                vs,
                stem@,
                ext@,
                1,
                fuel_all,
            ),
        decreases vs.len() - c,
    {
        let cand = make_candidate(&stem, &ext, c);
        if !contains_name(names, &cand) {
            proof {
                assert(first_free(vs, stem@, ext@, c as nat, (fuel_all - (c - 1)) as nat)
                    == c as nat);
                assert(cand@ == spec_resolve(vs, desired@));
            }
            return cand;
        }
        proof {
            assert(forall|j: nat|
                1 <= j < c + 1 ==> vs.contains(#[trigger] spec_candidate(stem@, ext@, j)));
            lemma_pigeonhole(stem@, ext@, vs, c as nat);
            let f = (fuel_all - (c - 1)) as nat;
            assert(first_free(vs, stem@, ext@, c as nat, f) == first_free(
                vs,
                stem@,
                ext@,
                (c + 1) as nat,
                (f - 1) as nat,
            ));
        }
        c = c + 1;
    }
}

} // verus!
