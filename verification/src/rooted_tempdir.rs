use vstd::prelude::*;

use crate::text::{
    dec_digits, format_decimal, in_listing, lemma_dec_digits_are_digits,
    lemma_dec_digits_injective, lemma_distinct_names_fit, listing_contains,
};

verus! {

/// The name probed at attempt `i`: the preferred name itself first, then the
/// preferred name with 1, 2, 3, … appended.
pub open spec fn probe_name(name: Seq<char>, i: nat) -> Seq<char> {
    if i == 0 {
        name
    } else {
        name + dec_digits(i)
    }
}

proof fn lemma_probe_name_injective(name: Seq<char>, i: nat, j: nat)
    requires
        probe_name(name, i) == probe_name(name, j),
    ensures
        i == j,
{
    lemma_dec_digits_are_digits(i);
    lemma_dec_digits_are_digits(j);
    if i == 0 && j != 0 {
        assert(probe_name(name, j).len() > name.len());
    } else if i != 0 && j == 0 {
        assert(probe_name(name, i).len() > name.len());
    } else if i != 0 && j != 0 {
        assert(probe_name(name, i) == name + dec_digits(i));
        assert(probe_name(name, j) == name + dec_digits(j));
        assert((name + dec_digits(i)).len() == name.len() + dec_digits(i).len());
        assert((name + dec_digits(j)).len() == name.len() + dec_digits(j).len());
        assert(dec_digits(i).len() == dec_digits(j).len());
        assert(dec_digits(i) =~= dec_digits(j)) by {
            assert(forall|k: int|
                0 <= k < dec_digits(i).len() ==> probe_name(name, i)[name.len() + k]
                    == dec_digits(i)[k]);
            assert(forall|k: int|
                0 <= k < dec_digits(j).len() ==> probe_name(name, j)[name.len() + k]
                    == dec_digits(j)[k]);
        }
        lemma_dec_digits_injective(i, j);
    }
}

/// Finds the first name of the probe order that is absent from the listing:
/// the preferred name if it is free, else the first numbered variant.
pub fn pick_free_name(name: &String, existing: &Vec<String>) -> (r: String)
    ensures
        !in_listing(existing@, r@),
        exists|i: nat|
            r@ == #[trigger] probe_name(name@, i) && (forall|j: nat|
                j < i ==> in_listing(existing@, #[trigger] probe_name(name@, j))),
{
    if !listing_contains(existing, name) {
        let r = name.clone();
        proof {
            assert(r@ == probe_name(name@, 0));
        }
        return r;
    }
    let cap = existing.len();
    let mut i: u128 = 1;
    let mut candidate = name.clone();
    let digits = format_decimal(i);
    candidate.append(digits.as_str());
    let mut present = listing_contains(existing, &candidate);
    while present
        invariant
            1 <= i,
            cap == existing@.len(),
            i <= cap + 1,
            candidate@ == probe_name(name@, i as nat),
            present == in_listing(existing@, candidate@),
            forall|j: nat| j < i ==> in_listing(existing@, #[trigger] probe_name(name@, j)),
        decreases existing@.len() + 1 - i,
    {
        i = i + 1;
        let mut next = name.clone();
        let digits = format_decimal(i);
        next.append(digits.as_str());
        candidate = next;
        present = listing_contains(existing, &candidate);
        proof {
            let names = Seq::new(i as nat, |j: int| probe_name(name@, j as nat));
            assert forall|a: int, b: int| 0 <= a < b < names.len() implies names[a] != names[b] by {
                if names[a] == names[b] {
                    lemma_probe_name_injective(name@, a as nat, b as nat);
                }
            }
            assert(names.no_duplicates());
            assert(forall|a: int|
                0 <= a < names.len() ==> in_listing(existing@, #[trigger] names[a]));
            lemma_distinct_names_fit(existing@, names);
        }
    }
    candidate
}

/// A staging directory beside the archive, deleted on release unless
/// explicitly retained.  The filesystem work around it — creating the
/// directory, removing it on release — happens outside the verified library.
#[derive(Debug)]
pub struct RootedTempDir {
    /// The full path of the staging directory.
    pub path: String,
    /// Whether the directory is to survive its release.
    pub kept: bool,
}

impl RootedTempDir {
    pub open spec fn is_kept(&self) -> bool {
        self.kept
    }

    /// Marks the directory as permanent: release must not delete it.
    pub fn keep(&mut self)
        ensures
            final (self).is_kept(),
            final (self).path == old(self).path,
    {
        self.kept = true;
    }

    /// Whether release must leave the directory in place.
    pub fn is_retained(&self) -> (r: bool)
        ensures
            r == self.is_kept(),
    {
        self.kept
    }
}

/// Plans a staging directory under `parent`: the directory name is the
/// preferred name, probed past the existing entries of `parent` until a free
/// name is found.  The caller creates the directory on disk.
pub fn create_rooted_tempdir(parent: &String, name: &String, existing: &Vec<String>) -> (r:
    RootedTempDir)
    ensures
        !r.is_kept(),
        exists|i: nat|
            r.path@ == parent@ + seq!['/'] + #[trigger] probe_name(name@, i) && !in_listing(
                existing@,
                probe_name(name@, i),
            ) && (forall|j: nat|
                j < i ==> in_listing(existing@, #[trigger] probe_name(name@, j))),
{
    let picked = pick_free_name(name, existing);
    let mut path = parent.clone();
    path.append("/");
    path.append(picked.as_str());
    proof {
        reveal_strlit("/");
        assert("/"@ =~= seq!['/']);
        let i = choose|i: nat|
            picked@ == #[trigger] probe_name(name@, i) && (forall|j: nat|
                j < i ==> in_listing(existing@, #[trigger] probe_name(name@, j)));
        assert(path@ == parent@ + seq!['/'] + probe_name(name@, i));
    }
    RootedTempDir { path, kept: false }
}

} // verus!
