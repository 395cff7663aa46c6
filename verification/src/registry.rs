//! The registry of connection profiles: uniqueness of `(user, host)` pairs
//! and of identifiers, identifier assignment, and order-preserving removal.

use vstd::prelude::*;

use crate::errors::{DuplicateError, NotFoundError};

verus! {

/// Mathematical model of one stored profile: every field as a plain value.
pub ghost struct ServerModel {
    pub id: u32,
    pub name: Seq<char>,
    pub user: Seq<char>,
    pub host: Seq<char>,
    pub existing_ssh_key: Option<Seq<char>>,
}

/// One stored profile. `existing_ssh_key` names a caller-supplied key file;
/// when it is absent the profile uses the system-managed key pair.
#[derive(Debug, Clone)]
pub struct Server {
    pub id: u32,
    pub name: String,
    pub user: String,
    pub host: String,
    pub existing_ssh_key: Option<String>,
}

impl View for Server {
    type V = ServerModel;

    open spec fn view(&self) -> ServerModel {
        ServerModel {
            id: self.id,
            name: self.name@,
            user: self.user@,
            host: self.host@,
            existing_ssh_key: match self.existing_ssh_key {
                Some(k) => Some(k@),
                None => None,
            },
        }
    }
}

impl DeepView for Server {
    type V = ServerModel;

    open spec fn deep_view(&self) -> ServerModel {
        self.view()
    }
}

impl Server {
    /// A copy of this profile, equal to it in every field.
    pub fn duplicate(&self) -> (r: Server)
        ensures
            r@ == self@,
    {
        Server {
            id: self.id,
            name: self.name.clone(),
            user: self.user.clone(),
            host: self.host.clone(),
            existing_ssh_key: match &self.existing_ssh_key {
                Some(k) => Some(k.clone()),
                None => None,
            },
        }
    }

    /// The profile uses the key pair the system itself generated and
    /// provisioned, so removing it must also revoke that trust record.
    pub fn is_system_managed(&self) -> (r: bool)
        ensures
            r == (self@.existing_ssh_key is None),
    {
        match &self.existing_ssh_key {
            Some(_) => false,
            None => true,
        }
    }
}

/// A profile the registry may hold: a positive id and a non-empty user.
pub open spec fn valid_profile(m: ServerModel) -> bool {
    m.id >= 1 && m.user.len() > 0
}

/// No two entries share an id.
pub open spec fn unique_ids(s: Seq<ServerModel>) -> bool {
    forall|i: int, j: int| 0 <= i < j < s.len() ==> s[i].id != s[j].id
}

/// No two entries share the `(user, host)` pair.
pub open spec fn unique_pairs(s: Seq<ServerModel>) -> bool {
    forall|i: int, j: int|
        0 <= i < j < s.len() ==> !(s[i].user == s[j].user && s[i].host == s[j].host)
}

/// Everything the registry promises of its contents.
pub open spec fn valid_registry(s: Seq<ServerModel>) -> bool {
    &&& unique_ids(s)
    &&& unique_pairs(s)
    &&& forall|i: int| 0 <= i < s.len() ==> valid_profile(#[trigger] s[i])
}

/// Some entry carries this id.
pub open spec fn contains_id(s: Seq<ServerModel>, id: u32) -> bool {
    exists|i: int| 0 <= i < s.len() && s[i].id == id
}

/// Some entry carries this `(user, host)` pair.
pub open spec fn has_pair(s: Seq<ServerModel>, user: Seq<char>, host: Seq<char>) -> bool {
    exists|i: int| 0 <= i < s.len() && s[i].user == user && s[i].host == host
}

/// The largest id present, or zero when the registry is empty.
pub open spec fn spec_max_id(s: Seq<ServerModel>) -> u32
    decreases s.len(),
{
    if s.len() == 0 {
        0u32
    } else {
        let m = spec_max_id(s.drop_last());
        if s.last().id > m {
            s.last().id
        } else {
            m
        }
    }
}

/// Every id present is bounded by the maximum.
pub proof fn lemma_max_id_bound(s: Seq<ServerModel>)
    ensures
        forall|i: int| 0 <= i < s.len() ==> #[trigger] s[i].id <= spec_max_id(s),
    decreases s.len(),
{
    if s.len() > 0 {
        lemma_max_id_bound(s.drop_last());
        assert forall|i: int| 0 <= i < s.len() implies #[trigger] s[i].id <= spec_max_id(s) by {
            if i < s.len() - 1 {
                assert(s.drop_last()[i] == s[i]);
                assert(s[i].id <= spec_max_id(s.drop_last()));
            } else {
                assert(s[i] == s.last());
            }
        }
    }
}

/// Extending a registry with a profile whose id is one plus the maximum
/// present keeps the ids unique: the new id cannot already occur.
pub proof fn lemma_fresh_id_keeps_ids_unique(s: Seq<ServerModel>, m: ServerModel)
    requires
        unique_ids(s),
        spec_max_id(s) < u32::MAX,
        m.id == spec_max_id(s) + 1,
    ensures
        !contains_id(s, m.id),
        unique_ids(s.push(m)),
{
    lemma_max_id_bound(s);
    assert forall|i: int, j: int| 0 <= i < j < s.push(m).len() implies s.push(m)[i].id != s.push(
        m,
    )[j].id by {
        if j < s.len() {
            assert(s.push(m)[i] == s[i]);
            assert(s.push(m)[j] == s[j]);
        } else {
            assert(s.push(m)[i] == s[i]);
            assert(s.push(m)[j] == m);
            assert(s[i].id <= spec_max_id(s));
        }
    }
}

/// After removing the entry at `i`, its id is gone (ids being unique), and
/// every other entry survives unchanged.
pub proof fn lemma_remove_keeps_others(s: Seq<ServerModel>, i: int)
    requires
        unique_ids(s),
        0 <= i < s.len(),
    ensures
        !contains_id(s.remove(i), s[i].id),
        forall|j: int|
            0 <= j < s.len() && j != i ==> contains_id(s.remove(i), #[trigger] s[j].id),
{
    let t = s.remove(i);
    assert forall|k: int| 0 <= k < t.len() implies t[k].id != s[i].id by {
        if k < i {
            assert(t[k] == s[k]);
        } else {
            assert(t[k] == s[k + 1]);
        }
    }
    assert forall|j: int| 0 <= j < s.len() && j != i implies contains_id(
        t,
        #[trigger] s[j].id,
    ) by {
        if j < i {
            assert(t[j] == s[j]);
        } else {
            assert(t[j - 1] == s[j]);
        }
    }
}

/// The durable store of profiles, loaded whole and rewritten whole. Its view
/// is the sequence of profile models in insertion order.
#[derive(Debug)]
pub struct SSHRegistry {
    servers: Vec<Server>,
}

impl View for SSHRegistry {
    type V = Seq<ServerModel>;

    closed spec fn view(&self) -> Seq<ServerModel> {
        self.servers.deep_view()
    }
}

impl SSHRegistry {
    /// The invariant every operation preserves.
    pub open spec fn wf(&self) -> bool {
        valid_registry(self@)
    }

    /// A registry with no profiles.
    pub fn empty() -> (r: SSHRegistry)
        ensures
            r@ =~= Seq::<ServerModel>::empty(),
            r.wf(),
    {
        SSHRegistry { servers: Vec::new() }
    }

    /// Wraps an already-validated profile list. Fails unless the list
    /// satisfies the registry invariant.
    pub fn from_servers(servers: Vec<Server>) -> (r: Result<SSHRegistry, Vec<Server>>)
        ensures
            match r {
                Ok(reg) => valid_registry(servers.deep_view()) && reg@ == servers.deep_view()
                    && reg.wf(),
                Err(v) => !valid_registry(servers.deep_view()) && v == servers,
            },
    {
        let n = servers.len();
        let mut i: usize = 0;
        while i < n
            invariant
                n == servers@.len(),
                0 <= i <= n,
                forall|k: int| 0 <= k < i ==> valid_profile(#[trigger] servers.deep_view()[k]),
                forall|k: int, l: int|
                    0 <= k < l < i ==> servers.deep_view()[k].id != servers.deep_view()[l].id,
                forall|k: int, l: int|
                    0 <= k < l < i ==> !(servers.deep_view()[k].user == servers.deep_view()[l].user
                        && servers.deep_view()[k].host == servers.deep_view()[l].host),
            decreases n - i,
        {
            let s = &servers[i];
            if s.id == 0 || s.user.as_str().is_empty() {
                assert(!valid_profile(servers.deep_view()[i as int]));
                return Err(servers);
            }
            let mut j: usize = 0;
            while j < i
                invariant
                    0 <= j <= i < n,
                    n == servers@.len(),
                    s.deep_view() == servers.deep_view()[i as int],
                    s.id == servers.deep_view()[i as int].id,
                    forall|k: int|
                        0 <= k < j ==> servers.deep_view()[k].id != servers.deep_view()[i as int].id,
                    forall|k: int|
                        0 <= k < j ==> !(servers.deep_view()[k].user
                            == servers.deep_view()[i as int].user && servers.deep_view()[k].host
                            == servers.deep_view()[i as int].host),
                decreases i - j,
            {
                let t = &servers[j];
                assert(t.deep_view() == servers.deep_view()[j as int]);
                assert(s.deep_view() == servers.deep_view()[i as int]);
                if t.id == s.id {
                    assert(servers.deep_view()[j as int].id == servers.deep_view()[i as int].id);
                    assert(!unique_ids(servers.deep_view()));
                    return Err(servers);
                }
                if t.user == s.user && t.host == s.host {
                    assert(servers.deep_view()[j as int].user == servers.deep_view()[i as int].user
                        && servers.deep_view()[j as int].host == servers.deep_view()[i as int].host);
                    assert(!unique_pairs(servers.deep_view()));
                    return Err(servers);
                }
                j += 1;
            }
            i += 1;
        }
        Ok(SSHRegistry { servers })
    }

    /// Read-only access to the profiles, in insertion order.
    pub fn servers(&self) -> (r: &Vec<Server>)
        ensures
            r.deep_view() == self@,
    {
        &self.servers
    }

    /// The largest id present, or zero when the registry is empty.
    pub fn max_id(&self) -> (r: u32)
        ensures
            r == spec_max_id(self@),
    {
        let mut m: u32 = 0;
        let mut i: usize = 0;
        let n = self.servers.len();
        assert(self@.take(0) =~= Seq::<ServerModel>::empty());
        while i < n
            invariant
                n == self@.len(),
                n == self.servers@.len(),
                0 <= i <= n,
                m == spec_max_id(self@.take(i as int)),
            decreases n - i,
        {
            let s = &self.servers[i];
            assert(self@.take(i + 1).drop_last() =~= self@.take(i as int));
            assert(self@.take(i + 1).last() == self@[i as int]);
            assert(s@ == self@[i as int]);
            if s.id > m {
                m = s.id;
            }
            i += 1;
        }
        assert(self@.take(n as int) =~= self@);
        m
    }

    /// The profile carrying `id`, when one does.
    pub fn find_by_id(&self, id: u32) -> (r: Option<&Server>)
        ensures
            match r {
                Some(srv) => exists|i: int|
                    0 <= i < self@.len() && self@[i].id == id && srv@ == #[trigger] self@[i],
                None => !contains_id(self@, id),
            },
    {
        let n = self.servers.len();
        let mut i: usize = 0;
        while i < n
            invariant
                n == self@.len(),
                n == self.servers@.len(),
                0 <= i <= n,
                forall|k: int| 0 <= k < i ==> #[trigger] self@[k].id != id,
            decreases n - i,
        {
            let s = &self.servers[i];
            assert(s@ == self@[i as int]);
            if s.id == id {
                return Some(s);
            }
            i += 1;
        }
        None
    }

    /// Appends a profile, unless its `(user, host)` pair is already present;
    /// the caller supplies a fresh, valid id (one plus the maximum).
    pub fn add(&mut self, server: &Server) -> (r: Result<(), DuplicateError>)
        requires
            old(self).wf(),
            valid_profile(server@),
            !contains_id(old(self)@, server@.id),
        ensures
            final(self).wf(),
            match r {
                Ok(()) => !has_pair(old(self)@, server@.user, server@.host) && final(self)@ == old(
                    self,
                )@.push(server@),
                Err(e) => has_pair(old(self)@, server@.user, server@.host) && final(self)@ == old(
                    self,
                )@ && e.user@ == server@.user && e.host@ == server@.host,
            },
    {
        let n = self.servers.len();
        let mut i: usize = 0;
        while i < n
            invariant
                self@ == old(self)@,
                self.wf(),
                n == self@.len(),
                n == self.servers@.len(),
                0 <= i <= n,
                forall|k: int|
                    0 <= k < i ==> !(#[trigger] self@[k].user == server@.user && self@[k].host
                        == server@.host),
            decreases n - i,
        {
            let s = &self.servers[i];
            assert(s@ == self@[i as int]);
            if s.user == server.user && s.host == server.host {
                return Err(DuplicateError { user: server.user.clone(), host: server.host.clone() });
            }
            i += 1;
        }
        let ghost before = self@;
        self.servers.push(server.duplicate());
        proof {
            assert(self@ =~= before.push(server@));
            assert forall|a: int, b: int| 0 <= a < b < self@.len() implies self@[a].id
                != self@[b].id by {
                if b < before.len() {
                    assert(self@[a] == before[a] && self@[b] == before[b]);
                } else {
                    assert(self@[b] == server@);
                    assert(self@[a] == before[a]);
                    assert(!contains_id(before, server@.id));
                }
            }
            assert forall|a: int, b: int| 0 <= a < b < self@.len() implies !(self@[a].user
                == self@[b].user && self@[a].host == self@[b].host) by {
                if b < before.len() {
                    assert(self@[a] == before[a] && self@[b] == before[b]);
                } else {
                    assert(self@[b] == server@);
                    assert(self@[a] == before[a]);
                    assert(!(before[a].user == server@.user && before[a].host == server@.host));
                }
            }
            assert forall|k: int| 0 <= k < self@.len() implies valid_profile(
                #[trigger] self@[k],
            ) by {
                if k < before.len() {
                    assert(self@[k] == before[k]);
                } else {
                    assert(self@[k] == server@);
                }
            }
        }
        Ok(())
    }

    /// Removes and returns the profile carrying `id`, keeping the order of
    /// the survivors; fails when no profile carries it.
    pub fn remove(&mut self, id: u32) -> (r: Result<Server, NotFoundError>)
        requires
            old(self).wf(),
        ensures
            final(self).wf(),
            match r {
                Ok(srv) => exists|i: int|
                    0 <= i < old(self)@.len() && #[trigger] old(self)@[i].id == id && srv@ == old(
                        self,
                    )@[i] && final(self)@ == old(self)@.remove(i),
                Err(e) => !contains_id(old(self)@, id) && final(self)@ == old(self)@ && e.id == id,
            },
    {
        let n = self.servers.len();
        let mut i: usize = 0;
        while i < n
            invariant
                self@ == old(self)@,
                self.wf(),
                n == self@.len(),
                n == self.servers@.len(),
                0 <= i <= n,
                forall|k: int| 0 <= k < i ==> #[trigger] self@[k].id != id,
            decreases n - i,
        {
            let s = &self.servers[i];
            assert(s@ == self@[i as int]);
            if s.id == id {
                let ghost before = self@;
                let removed = self.servers.remove(i);
                proof {
                    assert(removed@ == before[i as int]);
                    assert(self@ =~= before.remove(i as int));
                    assert forall|a: int, b: int| 0 <= a < b < self@.len() implies self@[a].id
                        != self@[b].id && !(self@[a].user == self@[b].user && self@[a].host
                        == self@[b].host) by {
                        let a0 = if a < i { a } else { a + 1 };
                        let b0 = if b < i { b } else { b + 1 };
                        assert(self@[a] == before[a0]);
                        assert(self@[b] == before[b0]);
                    }
                    assert forall|k: int| 0 <= k < self@.len() implies valid_profile(
                        #[trigger] self@[k],
                    ) by {
                        let k0 = if k < i { k } else { k + 1 };
                        assert(self@[k] == before[k0]);
                    }
                }
                return Ok(removed);
            }
            i += 1;
        }
        Err(NotFoundError { id })
    }
}

} // verus!
