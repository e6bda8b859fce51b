use vstd::prelude::*;

verus! {

/// A registered identity: the two public commitments y1 = g^x mod p and
/// y2 = h^x mod p, as decimal strings.
pub struct UserData {
    pub y1: String,
    pub y2: String,
}

/// The outstanding challenge for an identifier: the prover's one-time
/// commitments r1, r2 and the verifier-chosen challenge, as decimal strings.
pub struct UserChallengeData {
    pub r1: String,
    pub r2: String,
    pub challenge: String,
}

impl Clone for UserData {
    fn clone(&self) -> (r: Self)
        ensures
            r == *self,
    {
        UserData { y1: self.y1.clone(), y2: self.y2.clone() }
    }
}

impl Clone for UserChallengeData {
    fn clone(&self) -> (r: Self)
        ensures
            r == *self,
    {
        UserChallengeData {
            r1: self.r1.clone(),
            r2: self.r2.clone(),
            challenge: self.challenge.clone(),
        }
    }
}

/// Lookup in an association list where later entries shadow earlier ones,
/// so appending an entry acts as a map insert.
pub open spec fn assoc_get<V>(s: Seq<(String, V)>, k: Seq<char>) -> Option<V>
    decreases s.len(),
{
    if s.len() == 0 {
        None
    } else if s.last().0@ == k {
        Some(s.last().1)
    } else {
        assoc_get(s.drop_last(), k)
    }
}

/// Scans an association list from the most recent entry for a key.
fn assoc_find<'a, V>(s: &'a Vec<(String, V)>, k: &String) -> (r: Option<&'a V>)
    ensures
        match assoc_get(s@, k@) {
            Some(v) => r matches Some(rv) && *rv == v,
            None => r is None,
        },
{
    proof {
        assert(s@.subrange(0, s@.len() as int) =~= s@);
    }
    let mut i: usize = s.len();
    while i > 0
        invariant
            i <= s@.len(),
            assoc_get(s@, k@) == assoc_get(s@.subrange(0, i as int), k@),
        decreases i,
    {
        i = i - 1;
        let ghost pre = s@.subrange(0, i as int + 1);
        proof {
            assert(pre.last() == s@[i as int]);
            assert(pre.drop_last() =~= s@.subrange(0, i as int));
        }
        if s[i].0 == *k {
            return Some(&s[i].1);
        }
    }
    proof {
        assert(s@.subrange(0, 0) =~= Seq::<(String, V)>::empty());
    }
    None
}

/// The in-memory store: identities, outstanding challenges, and the
/// verification-outcome log, each an insert-by-append key-value map.
pub struct Db {
    pub users: Vec<(String, UserData)>,
    pub challenges: Vec<(String, UserChallengeData)>,
    pub sessions: Vec<(String, String)>,
}

impl Db {
    pub open spec fn user_of(&self, k: Seq<char>) -> Option<UserData> {
        assoc_get(self.users@, k)
    }

    pub open spec fn challenge_of(&self, k: Seq<char>) -> Option<UserChallengeData> {
        assoc_get(self.challenges@, k)
    }

    pub open spec fn session_of(&self, k: Seq<char>) -> Option<String> {
        assoc_get(self.sessions@, k)
    }

    pub fn new() -> (r: Self)
        ensures
            r.users@.len() == 0,
            r.challenges@.len() == 0,
            r.sessions@.len() == 0,
            forall|k: Seq<char>| r.user_of(k) is None,
            forall|k: Seq<char>| r.challenge_of(k) is None,
            forall|k: Seq<char>| r.session_of(k) is None,
    {
        Db { users: Vec::new(), challenges: Vec::new(), sessions: Vec::new() }
    }

    pub fn contains_user(&self, email: &String) -> (r: bool)
        ensures
            r == (self.user_of(email@) is Some),
    {
        assoc_find(&self.users, email).is_some()
    }

    pub fn get_user(&self, email: String) -> (r: Option<(String, UserData)>)
        ensures
            match self.user_of(email@) {
                Some(u) => r matches Some(p) && p.0 == email && p.1 == u,
                None => r is None,
            },
    {
        match assoc_find(&self.users, &email) {
            Some(u) => {
                let c = u.clone();
                Some((email, c))
            },
            None => None,
        }
    }

    pub fn add_user(&mut self, email: String, y1: String, y2: String)
        ensures
            final(self).users@ == old(self).users@.push((email, (UserData { y1, y2 }))),
            final(self).challenges@ == old(self).challenges@,
            final(self).sessions@ == old(self).sessions@,
            final(self).user_of(email@) == Some((UserData { y1, y2 })),
            forall|k: Seq<char>| k != email@ ==> final(self).user_of(k) == old(self).user_of(k),
    {
        let ghost prior = self.users@;
        self.users.push((email, UserData { y1, y2 }));
        proof {
            assert(self.users@.drop_last() =~= prior);
        }
    }

    pub fn get_challenge_data(&self, auth_id: String) -> (r: Option<(String, UserChallengeData)>)
        ensures
            match self.challenge_of(auth_id@) {
                Some(c) => r matches Some(p) && p.0 == auth_id && p.1 == c,
                None => r is None,
            },
    {
        match assoc_find(&self.challenges, &auth_id) {
            Some(c) => {
                let d = c.clone();
                Some((auth_id, d))
            },
            None => None,
        }
    }

    pub fn add_challenge_data(&mut self, auth_id: String, r1: String, r2: String, challenge: String)
        ensures
            final(self).challenges@ == old(self).challenges@.push(
                (auth_id, (UserChallengeData { r1, r2, challenge })),
            ),
            final(self).users@ == old(self).users@,
            final(self).sessions@ == old(self).sessions@,
            final(self).challenge_of(auth_id@) == Some((UserChallengeData { r1, r2, challenge })),
            forall|k: Seq<char>| k != auth_id@ ==> final(self).challenge_of(k) == old(
                self,
            ).challenge_of(k),
    {
        let ghost prior = self.challenges@;
        self.challenges.push((auth_id, UserChallengeData { r1, r2, challenge }));
        proof {
            assert(self.challenges@.drop_last() =~= prior);
        }
    }

    pub fn get_session_data(&self, auth_id: String) -> (r: Option<(String, String)>)
        ensures
            match self.session_of(auth_id@) {
                Some(s) => r matches Some(p) && p.0 == auth_id && p.1 == s,
                None => r is None,
            },
    {
        match assoc_find(&self.sessions, &auth_id) {
            Some(s) => {
                let t = s.clone();
                Some((auth_id, t))
            },
            None => None,
        }
    }

    pub fn add_session(&mut self, auth_id: String, session_id: String)
        ensures
            final(self).sessions@ == old(self).sessions@.push((auth_id, session_id)),
            final(self).users@ == old(self).users@,
            final(self).challenges@ == old(self).challenges@,
            final(self).session_of(auth_id@) == Some(session_id),
            forall|k: Seq<char>| k != auth_id@ ==> final(self).session_of(k) == old(
                self,
            ).session_of(k),
    {
        let ghost prior = self.sessions@;
        self.sessions.push((auth_id, session_id));
        proof {
            assert(self.sessions@.drop_last() =~= prior);
        }
    }
}

} // verus!
