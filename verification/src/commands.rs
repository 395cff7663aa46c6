//! The command layer: each command's decisions as a function from registry
//! state and arguments to the next state and the action the caller must take.
//! The caller performs the file writes, key provisioning and session launches
//! these decisions call for.

use vstd::prelude::*;

use crate::errors::{DuplicateError, NotFoundError};
use crate::registry::{
    contains_id, has_pair, lemma_fresh_id_keeps_ids_unique, spec_max_id, SSHRegistry, Server,
    ServerModel,
};

verus! {

/// The two session kinds the transport can start.
#[derive(Debug, Clone, Copy, PartialEq, Eq, Structural)]
pub enum SSHProtocol {
    SSH,
    SFTP,
}

/// Everything the transport needs to start a session: the resolved target
/// and the private key chosen by the key-resolution precedence.
#[derive(Debug)]
pub struct LaunchPlan {
    pub host: String,
    pub user: String,
    pub protocol: SSHProtocol,
    pub private_key_path: String,
}

/// What `rm` decided: the removed profile, and the host whose local trust
/// record must now be revoked — present exactly when the profile used the
/// system-managed key.
#[derive(Debug)]
pub struct RemoveOutcome {
    pub server: Server,
    pub revoke_host: Option<String>,
}

/// Resolves the profile carrying `id` into a launch plan. The profile's own
/// key file, when it names one, overrides the default `private_key_path`;
/// `sftp` selects the file-transfer session in place of the shell.
pub fn handle_use(registry: &SSHRegistry, id: u32, sftp: bool, private_key_path: &str) -> (r:
    Result<LaunchPlan, NotFoundError>)
    ensures
        match r {
            Ok(plan) => exists|i: int|
                0 <= i < registry@.len() && #[trigger] registry@[i].id == id && plan.host@
                    == registry@[i].host && plan.user@ == registry@[i].user
                    && plan.private_key_path@ == (match registry@[i].existing_ssh_key {
                    Some(k) => k,
                    None => private_key_path@,
                }) && plan.protocol == (if sftp {
                    SSHProtocol::SFTP
                } else {
                    SSHProtocol::SSH
                }),
            Err(e) => !contains_id(registry@, id) && e.id == id,
        },
{
    match registry.find_by_id(id) {
        None => Err(NotFoundError { id }),
        Some(server) => {
            let key = match &server.existing_ssh_key {
                Some(k) => k.clone(),
                None => String::from_str(private_key_path),
            };
            Ok(
                LaunchPlan {
                    host: server.host.clone(),
                    user: server.user.clone(),
                    protocol: if sftp {
                        SSHProtocol::SFTP
                    } else {
                        SSHProtocol::SSH
                    },
                    private_key_path: key,
                },
            )
        },
    }
}

/// The model of the profile `add` stores: the name defaults to
/// `user@host`, and the id is one plus the largest id present.
pub open spec fn added_profile(
    before: Seq<ServerModel>,
    user: Seq<char>,
    host: Seq<char>,
    name: Seq<char>,
    existing_ssh_key: Option<Seq<char>>,
) -> ServerModel {
    ServerModel {
        id: (spec_max_id(before) + 1) as u32,
        name: if name.len() == 0 {
            user + "@"@ + host
        } else {
            name
        },
        user: user,
        host: host,
        existing_ssh_key: existing_ssh_key,
    }
}

/// Stores a new profile and reports its id, unless the `(user, host)` pair
/// is already present. The caller provisions key material first when
/// `existing_ssh_key` is absent; a provisioning failure means this is never
/// called.
pub fn handle_add(
    registry: &mut SSHRegistry,
    user: String,
    host: String,
    name: String,
    existing_ssh_key: Option<String>,
) -> (r: Result<u32, DuplicateError>)
    requires
        old(registry).wf(),
        user@.len() > 0,
        spec_max_id(old(registry)@) < u32::MAX,
    ensures
        final(registry).wf(),
        match r {
            Ok(new_id) => !has_pair(old(registry)@, user@, host@) && new_id == spec_max_id(
                old(registry)@,
            ) + 1 && final(registry)@ == old(registry)@.push(
                added_profile(old(registry)@, user@, host@, name@, existing_ssh_key.deep_view()),
            ),
            Err(e) => has_pair(old(registry)@, user@, host@) && final(registry)@ == old(registry)@
                && e.user@ == user@ && e.host@ == host@,
        },
{
    let resolved_name = if name.as_str().is_empty() {
        let mut n = user.clone();
        n.append("@");
        n.append(host.as_str());
        n
    } else {
        name
    };
    let id = registry.max_id() + 1;
    let server = Server { id, name: resolved_name, user, host, existing_ssh_key };
    proof {
        lemma_fresh_id_keeps_ids_unique(registry@, server@);
    }
    match registry.add(&server) {
        Ok(()) => Ok(id),
        Err(e) => Err(e),
    }
}

/// Removes the profile carrying `id` and decides whether its host's trust
/// record must be revoked: it must exactly when the profile carried no
/// caller-supplied key.
pub fn handle_rm(registry: &mut SSHRegistry, id: u32) -> (r: Result<RemoveOutcome, NotFoundError>)
    requires
        old(registry).wf(),
    ensures
        final(registry).wf(),
        match r {
            Ok(out) => exists|i: int|
                0 <= i < old(registry)@.len() && #[trigger] old(registry)@[i].id == id
                    && out.server@ == old(registry)@[i] && final(registry)@ == old(
                    registry,
                )@.remove(i) && out.revoke_host.deep_view() == (match old(
                    registry,
                )@[i].existing_ssh_key {
                    Some(_) => None::<Seq<char>>,
                    None => Some(old(registry)@[i].host),
                }),
            Err(e) => !contains_id(old(registry)@, id) && final(registry)@ == old(registry)@
                && e.id == id,
        },
{
    match registry.remove(id) {
        Err(e) => Err(e),
        Ok(server) => {
            let revoke_host = if server.is_system_managed() {
                Some(server.host.clone())
            } else {
                None
            };
            Ok(RemoveOutcome { server, revoke_host })
        },
    }
}

} // verus!

