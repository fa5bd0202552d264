use vstd::prelude::*;

verus! {

/// One candidate secret: either "try without a password" or a concrete
/// password string.
#[derive(Debug)]
pub enum Password {
    NoPassword,
    Password(String),
}

impl View for Password {
    type V = Option<Seq<char>>;

    open spec fn view(&self) -> Option<Seq<char>> {
        match self {
            Password::NoPassword => None,
            Password::Password(s) => Some(s@),
        }
    }
}

impl Clone for Password {
    fn clone(&self) -> (r: Self)
        ensures
            r@ == self@,
    {
        match self {
            Password::NoPassword => Password::NoPassword,
            Password::Password(s) => Password::Password(s.clone()),
        }
    }
}

impl PartialEq for Password {
    fn eq(&self, other: &Password) -> (r: bool) {
        match (self, other) {
            (Password::NoPassword, Password::NoPassword) => true,
            (Password::Password(a), Password::Password(b)) => a.eq(b),
            _ => false,
        }
    }
}

impl vstd::std_specs::cmp::PartialEqSpecImpl for Password {
    open spec fn obeys_eq_spec() -> bool {
        true
    }

    open spec fn eq_spec(&self, other: &Password) -> bool {
        self@ == other@
    }
}

impl Eq for Password {

}

/// The views of a vector of candidates, in order.
pub open spec fn candidate_views(s: Seq<Password>) -> Seq<Option<Seq<char>>> {
    s.map_values(|p: Password| p@)
}

/// What deduplication keeps: every candidate at its first occurrence, in the
/// order of those first occurrences.
pub open spec fn dedup_spec(s: Seq<Option<Seq<char>>>) -> Seq<Option<Seq<char>>>
    decreases s.len(),
{
    if s.len() == 0 {
        Seq::empty()
    } else if s.drop_last().contains(s.last()) {
        dedup_spec(s.drop_last())
    } else {
        dedup_spec(s.drop_last()).push(s.last())
    }
}

pub proof fn lemma_dedup_keeps_membership(s: Seq<Option<Seq<char>>>, x: Option<Seq<char>>)
    ensures
        dedup_spec(s).contains(x) == s.contains(x),
    decreases s.len(),
{
    if s.len() == 0 {
    } else {
        lemma_dedup_keeps_membership(s.drop_last(), x);
        if s.contains(x) {
            if x == s.last() {
                if s.drop_last().contains(s.last()) {
                    assert(dedup_spec(s).contains(x));
                } else {
                    assert(dedup_spec(s) == dedup_spec(s.drop_last()).push(x));
                    assert(dedup_spec(s).last() == x);
                    assert(dedup_spec(s).contains(x));
                }
            } else {
                let i = choose|i: int| 0 <= i < s.len() && s[i] == x;
                assert(s.drop_last()[i] == x);
                assert(s.drop_last().contains(x));
                if !s.drop_last().contains(s.last()) {
                    let j = choose|j: int|
                        0 <= j < dedup_spec(s.drop_last()).len() && dedup_spec(s.drop_last())[j]
                            == x;
                    assert(dedup_spec(s)[j] == x);
                }
            }
        } else {
            assert(!s.drop_last().contains(x)) by {
                if s.drop_last().contains(x) {
                    let i = choose|i: int| 0 <= i < s.drop_last().len() && s.drop_last()[i] == x;
                    assert(s[i] == x);
                }
            }
            assert(x != s.last()) by {
                assert(s.contains(s.last()));
            }
            if !s.drop_last().contains(s.last()) {
                assert(!dedup_spec(s).contains(x)) by {
                    if dedup_spec(s).contains(x) {
                        let j = choose|j: int|
                            0 <= j < dedup_spec(s).len() && dedup_spec(s)[j] == x;
                        if j < dedup_spec(s).len() - 1 {
                            assert(dedup_spec(s.drop_last())[j] == x);
                        }
                    }
                };
            }
        }
    }
}

/// Deduplication never keeps a value twice.
pub proof fn lemma_dedup_no_duplicates(s: Seq<Option<Seq<char>>>)
    ensures
        dedup_spec(s).no_duplicates(),
    decreases s.len(),
{
    if s.len() == 0 {
    } else {
        lemma_dedup_no_duplicates(s.drop_last());
        if !s.drop_last().contains(s.last()) {
            lemma_dedup_keeps_membership(s.drop_last(), s.last());
            let d = dedup_spec(s.drop_last());
            assert forall|i: int, j: int|
                0 <= i < j < d.push(s.last()).len() implies d.push(s.last())[i] != d.push(
                s.last(),
            )[j] by {
                if j < d.len() {
                    assert(d[i] != d[j]);
                } else {
                    assert(d.push(s.last())[j] == s.last());
                    assert(d[i] == d.push(s.last())[i]);
                    assert(d.contains(d[i])) by {
                        assert(0 <= i < d.len());
                    }
                }
            }
        }
    }
}

/// Deduplicating a non-empty list keeps at least its first element.
pub proof fn lemma_dedup_nonempty(s: Seq<Option<Seq<char>>>)
    requires
        s.len() >= 1,
    ensures
        dedup_spec(s).len() >= 1,
    decreases s.len(),
{
    if s.drop_last().contains(s.last()) {
        lemma_dedup_nonempty(s.drop_last());
    }
}

/// Linear scan for a candidate with the same value.
fn holds_candidate(v: &Vec<Password>, p: &Password) -> (r: bool)
    ensures
        r == candidate_views(v@).contains(p@),
{
    let mut i: usize = 0;
    while i < v.len()
        invariant
            i <= v@.len(),
            forall|k: int| 0 <= k < i ==> v@[k]@ != p@,
        decreases v@.len() - i,
    {
        if v[i].eq(p) {
            assert(candidate_views(v@)[i as int] == p@);
            return true;
        }
        i = i + 1;
    }
    assert(!candidate_views(v@).contains(p@)) by {
        if candidate_views(v@).contains(p@) {
            let k = choose|k: int|
                0 <= k < candidate_views(v@).len() && candidate_views(v@)[k] == p@;
            assert(v@[k]@ == p@);
        }
    }
    false
}

/// Keeps the first occurrence of every candidate, dropping later repeats.
fn dedup_passwords(passwords: &mut Vec<Password>)
    ensures
        candidate_views(final (passwords)@) == dedup_spec(candidate_views(old(passwords)@)),
{
    let mut kept: Vec<Password> = Vec::new();
    let mut i: usize = 0;
    proof {
        assert(candidate_views(passwords@).take(0) =~= Seq::<Option<Seq<char>>>::empty());
        assert(dedup_spec(Seq::<Option<Seq<char>>>::empty()) =~= Seq::<Option<Seq<char>>>::empty());
        assert(candidate_views(kept@) =~= Seq::<Option<Seq<char>>>::empty());
    }
    while i < passwords.len()
        invariant
            i <= passwords@.len(),
            candidate_views(kept@) == dedup_spec(candidate_views(passwords@).take(i as int)),
        decreases passwords@.len() - i,
    {
        let ghost prefix = candidate_views(passwords@).take(i as int);
        let ghost next = candidate_views(passwords@).take(i + 1 as int);
        proof {
            assert(next.drop_last() =~= prefix);
            assert(next.last() == passwords@[i as int]@);
        }
        let seen = holds_candidate(&kept, &passwords[i]);
        proof {
            lemma_dedup_keeps_membership(prefix, passwords@[i as int]@);
        }
        if !seen {
            let p = passwords[i].clone();
            kept.push(p);
            proof {
                assert(candidate_views(kept@) =~= candidate_views(kept@.drop_last()).push(
                    kept@.last()@,
                ));
            }
        }
        i = i + 1;
    }
    proof {
        assert(candidate_views(passwords@).take(passwords@.len() as int) =~= candidate_views(
            passwords@,
        ));
    }
    *passwords = kept;
}

/// The ordered, duplicate-free list of candidate secrets, tried from the
/// front.
pub struct PasswordDatabase {
    pub passwords: Vec<Password>,
}

impl View for PasswordDatabase {
    type V = Seq<Option<Seq<char>>>;

    open spec fn view(&self) -> Seq<Option<Seq<char>>> {
        candidate_views(self.passwords@)
    }
}

/// What `create` must produce: the input deduplicated, or a single
/// no-password entry when nothing was configured.
pub open spec fn create_spec(input: Seq<Option<Seq<char>>>) -> Seq<Option<Seq<char>>> {
    if input.len() == 0 {
        seq![Option::<Seq<char>>::None]
    } else {
        dedup_spec(input)
    }
}

impl PasswordDatabase {
    /// A database is well formed when it still has a candidate to try and
    /// holds no candidate twice.
    pub open spec fn wf(&self) -> bool {
        self@.len() >= 1 && self@.no_duplicates()
    }

    /// Builds the trial list: duplicates dropped (first occurrence wins), and
    /// a lone no-password entry seeded when the input is empty.
    pub fn create(passwords: Vec<Password>) -> (r: Self)
        ensures
            r@ == create_spec(candidate_views(passwords@)),
            r.wf(),
    {
        let mut passwords = passwords;
        let ghost input = candidate_views(passwords@);
        if passwords.len() == 0 {
            passwords.push(Password::NoPassword);
            proof {
                let s = candidate_views(passwords@);
                assert(s =~= seq![Option::<Seq<char>>::None]);
                assert(s.drop_last() =~= Seq::<Option<Seq<char>>>::empty());
                assert(dedup_spec(s.drop_last()) == Seq::<Option<Seq<char>>>::empty());
                assert(!s.drop_last().contains(s.last()));
                assert(dedup_spec(s) == dedup_spec(s.drop_last()).push(s.last()));
                assert(dedup_spec(s) =~= seq![Option::<Seq<char>>::None]);
            }
        } else {
            dedup_passwords(&mut passwords);
            proof {
                lemma_dedup_nonempty(input);
            }
        }
        proof {
            if input.len() == 0 {
                assert(candidate_views(passwords@).no_duplicates());
            } else {
                lemma_dedup_no_duplicates(input);
            }
        }
        PasswordDatabase { passwords }
    }

    /// Moves the given candidate to the back of the trial order; a candidate
    /// that is not present leaves the database unchanged.
    pub fn promote(&mut self, correct_pwd: &Password)
        ensures
            match old(self)@.index_of_first(correct_pwd@) {
                Some(i) => final (self)@ == old(self)@.remove(i).push(correct_pwd@),
                None => final (self)@ == old(self)@,
            },
            old(self).wf() ==> final (self).wf(),
    {
        let ghost before = self@;
        let mut position: usize = 0;
        let mut found = false;
        let mut i: usize = 0;
        while i < self.passwords.len()
            invariant
                i <= self@.len(),
                self@ == before,
                !found ==> forall|k: int| 0 <= k < i ==> self@[k] != correct_pwd@,
                found ==> position < i <= self@.len() && self@[position as int] == correct_pwd@
                    && forall|k: int| 0 <= k < position ==> self@[k] != correct_pwd@,
            decreases self@.len() - i,
        {
            if !found && self.passwords[i].eq(correct_pwd) {
                found = true;
                position = i;
            }
            i = i + 1;
        }
        if !found {
            proof {
                assert(!before.contains(correct_pwd@)) by {
                    if before.contains(correct_pwd@) {
                        let k = choose|k: int| 0 <= k < before.len() && before[k] == correct_pwd@;
                        assert(before[k] != correct_pwd@);
                    }
                }
                before.index_of_first_ensures(correct_pwd@);
            }
            return ;
        }
        proof {
            assert(before.contains(correct_pwd@)) by {
                assert(before[position as int] == correct_pwd@);
            }
            before.index_of_first_ensures(correct_pwd@);
        }
        let removed = self.passwords.remove(position);
        self.passwords.push(removed);
        proof {
            let i0 = before.index_of_first(correct_pwd@).unwrap();
            assert(i0 == position as int) by {
                if i0 < position as int {
                    assert(before[i0] == correct_pwd@);
                } else if i0 > position as int {
                    assert(before[position as int] == correct_pwd@);
                }
            }
            assert(self@ =~= before.remove(position as int).push(correct_pwd@));
            if before.no_duplicates() && before.len() >= 1 {
                let rem = before.remove(position as int);
                assert(self@.no_duplicates()) by {
                    assert(forall|a: int, b: int| 0 <= a < b < rem.len() ==> rem[a] != rem[b]);
                    assert(forall|a: int| 0 <= a < rem.len() ==> rem[a] != correct_pwd@);
                }
            }
        }
    }
}

} // verus!
