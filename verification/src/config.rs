//! The configuration state: a user identity, the map of named profiles, and
//! the aggregate that composes the profile map with the two cached identities
//! read from the external tool.

use vstd::prelude::*;
use crate::profiles::Profiles;

verus! {

/// The one profile name that is synthesized from the external tool's own
/// configuration and can never be stored, updated or deleted.
pub open spec fn reserved_name() -> Seq<char> {
    "global"@
}

/// A Git identity: a user name together with an email address.
#[derive(Debug)]
pub struct UserConfig {
    pub name: String,
    pub email: String,
}

/// The mathematical value of a [`UserConfig`]: both fields as character
/// sequences.
#[verifier::ext_equal]
pub struct UserView {
    pub name: Seq<char>,
    pub email: Seq<char>,
}

impl View for UserConfig {
    type V = UserView;

    open spec fn view(&self) -> UserView {
        UserView { name: self.name@, email: self.email@ }
    }
}

impl Clone for UserConfig {
    fn clone(&self) -> (r: Self)
        ensures
            r@ == self@,
    {
        UserConfig { name: self.name.clone(), email: self.email.clone() }
    }
}

/// Every failure a command can report, each with its fixed message text.
#[derive(Clone, Copy, Debug, PartialEq, Eq, Structural)]
pub enum GumError {
    /// A profile may not be stored under the reserved name.
    ReservedGroupName,
    /// Updating a profile needs at least one of the two fields.
    MissingFields,
    /// The name handed to the use command denotes no profile.
    InvalidGroupName,
    /// A repository-local write was asked for outside a repository.
    NotGitRepository,
    /// The reserved synthesized entry cannot be deleted.
    CannotDeleteGlobal,
    /// The name handed to the delete command denotes no profile.
    GroupNotFound,
    /// Neither scope of the external tool has an identity configured.
    NoGitUser,
    /// The external tool refused the write of the user-name key.
    NameWriteFailed,
    /// The external tool refused the write of the email key.
    EmailWriteFailed,
}

impl GumError {
    pub open spec fn message_spec(&self) -> Seq<char> {
        match *self {
            GumError::ReservedGroupName => "Group name cannot be 'global'"@,
            GumError::MissingFields => "Must provide at least one of username or email"@,
            GumError::InvalidGroupName => "is an invalid group name"@,
            GumError::NotGitRepository => "Current project is not a git repository"@,
            GumError::CannotDeleteGlobal => "Cannot delete global"@,
            GumError::GroupNotFound => "group not found"@,
            GumError::NoGitUser => "No git user configuration found"@,
            GumError::NameWriteFailed => "Failed to set git user.name"@,
            GumError::EmailWriteFailed => "Failed to set git user.email"@,
        }
    }

    /// The fixed part of the user-facing message for this failure.
    pub fn message(&self) -> (r: &'static str)
        ensures
            r@ == self.message_spec(),
    {
        match *self {
            GumError::ReservedGroupName => "Group name cannot be 'global'",
            GumError::MissingFields => "Must provide at least one of username or email",
            GumError::InvalidGroupName => "is an invalid group name",
            GumError::NotGitRepository => "Current project is not a git repository",
            GumError::CannotDeleteGlobal => "Cannot delete global",
            GumError::GroupNotFound => "group not found",
            GumError::NoGitUser => "No git user configuration found",
            GumError::NameWriteFailed => "Failed to set git user.name",
            GumError::EmailWriteFailed => "Failed to set git user.email",
        }
    }
}

/// The identity that a fresh profile starts from before the supplied fields
/// are patched in: both fields empty.
pub open spec fn blank_user() -> UserView {
    UserView { name: Seq::<char>::empty(), email: Seq::<char>::empty() }
}

/// The identity stored under `k` after patching: each supplied field
/// replaces the prior one, an absent field leaves it as it was, and a
/// profile that did not exist starts from empty fields.
pub open spec fn patched_user(
    m: Map<Seq<char>, UserView>,
    k: Seq<char>,
    name: Option<String>,
    email: Option<String>,
) -> UserView {
    let prior = if m.contains_key(k) {
        m[k]
    } else {
        blank_user()
    };
    UserView {
        name: match name {
            Some(n) => n@,
            None => prior.name,
        },
        email: match email {
            Some(e) => e@,
            None => prior.email,
        },
    }
}

/// The in-memory configuration state: the stored profiles plus the two
/// cached identities read from the external tool.
#[derive(Debug)]
pub struct Config {
    /// User-defined profile groups.
    pub groups: Profiles,
    /// Cached system-wide identity of the external tool.
    pub global_user: Option<UserConfig>,
    /// Cached repository-local identity of the external tool.
    pub project_user: Option<UserConfig>,
}

impl Config {
    /// The profile names are unique and the reserved name is never stored.
    pub open spec fn wf(&self) -> bool {
        &&& self.groups.wf()
        &&& !self.groups@.contains_key(reserved_name())
    }

    /// The identity in effect for a new action: the repository-local one
    /// shadows the system-wide one; none when neither cache is set.
    pub open spec fn effective_identity(&self) -> Option<UserView> {
        match self.project_user {
            Some(u) => Some(u@),
            None => match self.global_user {
                Some(u) => Some(u@),
                None => None,
            },
        }
    }

    /// The stored profiles plus the synthesized reserved entry, present
    /// exactly when the system-wide cache is set.
    pub open spec fn full_view(&self) -> Map<Seq<char>, UserView> {
        match self.global_user {
            Some(g) => self.groups@.insert(reserved_name(), g@),
            None => self.groups@,
        }
    }

    /// An empty state: no profiles, neither cache set.
    pub fn new() -> (r: Self)
        ensures
            r.wf(),
            r.groups@ == Map::<Seq<char>, UserView>::empty(),
            r.groups.entries_seq() == Seq::<(Seq<char>, UserView)>::empty(),
            r.global_user is None,
            r.project_user is None,
    {
        proof {
            crate::profiles::lemma_map_of_contains(
                Seq::<(Seq<char>, UserView)>::empty(),
                reserved_name(),
            );
        }
        Self { groups: Profiles::new(), global_user: None, project_user: None }
    }

    /// Merge the three independent startup reads into one state. A stored
    /// entry under the reserved name is dropped, so that the invariant that
    /// it is only ever synthesized holds from the start.
    pub fn assemble(
        groups: Profiles,
        global_user: Option<UserConfig>,
        project_user: Option<UserConfig>,
    ) -> (r: Self)
        requires
            groups.wf(),
        ensures
            r.wf(),
            r.groups@ == groups@.remove(reserved_name()),
            r.global_user == global_user,
            r.project_user == project_user,
    {
        let mut gs = groups;
        let reserved: String = "global".to_owned();
        gs.remove(&reserved);
        Self { groups: gs, global_user, project_user }
    }

    /// The currently effective identity, or the failure that no identity is
    /// configured at either scope.
    pub fn get_using_git_user(&self) -> (r: Result<&UserConfig, GumError>)
        ensures
            match r {
                Ok(u) => self.effective_identity() == Some(u@),
                Err(e) => self.effective_identity() is None && e == GumError::NoGitUser,
            },
    {
        match &self.project_user {
            Some(u) => Ok(u),
            None => match &self.global_user {
                Some(u) => Ok(u),
                None => Err(GumError::NoGitUser),
            },
        }
    }

    /// The full profile view: the stored profiles plus the synthesized
    /// reserved entry when the system-wide cache is set.
    pub fn get_all_config_info(&self) -> (r: Profiles)
        requires
            self.wf(),
        ensures
            r.wf(),
            r@ == self.full_view(),
    {
        let mut all = self.groups.clone();
        if let Some(g) = &self.global_user {
            let reserved: String = "global".to_owned();
            all.insert(&reserved, g.clone());
        }
        all
    }

    /// Replace the cached system-wide identity with a fresh read.
    pub fn refresh_global_user(&mut self, user: Option<UserConfig>)
        ensures
            final(self).global_user == user,
            final(self).project_user == old(self).project_user,
            final(self).groups == old(self).groups,
            old(self).wf() ==> final(self).wf(),
    {
        self.global_user = user;
    }

    /// Replace the cached repository-local identity with a fresh read.
    pub fn refresh_project_user(&mut self, user: Option<UserConfig>)
        ensures
            final(self).project_user == user,
            final(self).global_user == old(self).global_user,
            final(self).groups == old(self).groups,
            old(self).wf() ==> final(self).wf(),
    {
        self.project_user = user;
    }

    /// Create or update the profile `group_name`: the supplied fields are
    /// patched in, the other field is kept (empty for a brand-new profile).
    /// The reserved name is rejected, as is a call that supplies neither
    /// field; a rejected call leaves the state untouched.
    pub fn set_profile(
        &mut self,
        group_name: &String,
        name: Option<String>,
        email: Option<String>,
    ) -> (r: Result<(), GumError>)
        requires
            old(self).wf(),
        ensures
            final(self).wf(),
            group_name@ == reserved_name() ==> r == Err::<(), GumError>(
                GumError::ReservedGroupName,
            ) && *final(self) == *old(self),
            group_name@ != reserved_name() && name is None && email is None ==> r == Err::<
                (),
                GumError,
            >(GumError::MissingFields) && *final(self) == *old(self),
            group_name@ != reserved_name() && (name is Some || email is Some) ==> {
                &&& r == Ok::<(), GumError>(())
                &&& final(self).groups@ == old(self).groups@.insert(
                    group_name@,
                    patched_user(old(self).groups@, group_name@, name, email),
                )
                &&& final(self).global_user == old(self).global_user
                &&& final(self).project_user == old(self).project_user
            },
    {
        let reserved: String = "global".to_owned();
        if *group_name == reserved {
            return Err(GumError::ReservedGroupName);
        }
        if name.is_none() && email.is_none() {
            return Err(GumError::MissingFields);
        }
        let mut current: UserConfig = match self.groups.get(group_name) {
            Some(u) => u.clone(),
            None => UserConfig { name: String::new(), email: String::new() },
        };
        if let Some(n) = name {
            current.name = n;
        }
        if let Some(e) = email {
            current.email = e;
        }
        self.groups.insert(group_name, current);
        Ok(())
    }

    /// Delete the profile `group_name`. The reserved name and an unknown
    /// name are rejected and leave the state untouched; otherwise exactly
    /// that entry is removed.
    pub fn delete_profile(&mut self, group_name: &String) -> (r: Result<(), GumError>)
        requires
            old(self).wf(),
        ensures
            final(self).wf(),
            group_name@ == reserved_name() ==> r == Err::<(), GumError>(
                GumError::CannotDeleteGlobal,
            ) && *final(self) == *old(self),
            group_name@ != reserved_name() && !old(self).groups@.contains_key(group_name@)
                ==> r == Err::<(), GumError>(GumError::GroupNotFound) && *final(self) == *old(
                self,
            ),
            group_name@ != reserved_name() && old(self).groups@.contains_key(group_name@) ==> {
                &&& r == Ok::<(), GumError>(())
                &&& final(self).groups@ == old(self).groups@.remove(group_name@)
                &&& final(self).global_user == old(self).global_user
                &&& final(self).project_user == old(self).project_user
            },
    {
        let reserved: String = "global".to_owned();
        if *group_name == reserved {
            return Err(GumError::CannotDeleteGlobal);
        }
        if !self.groups.contains(group_name) {
            return Err(GumError::GroupNotFound);
        }
        self.groups.remove(group_name);
        Ok(())
    }

    /// Decide the use command: look the name up in the full profile view,
    /// gate a repository-local write on being inside a repository, and hand
    /// back the identity to write. No decision depends on anything but the
    /// state and the two arguments, so an unknown name fails the same way
    /// whatever the probe would have said.
    pub fn apply_profile(&self, group_name: &String, global: bool, inside_repo: bool) -> (r:
        Result<UserConfig, GumError>)
        requires
            self.wf(),
        ensures
            !self.full_view().contains_key(group_name@) ==> r == Err::<UserConfig, GumError>(
                GumError::InvalidGroupName,
            ),
            self.full_view().contains_key(group_name@) && !global && !inside_repo ==> r == Err::<
                UserConfig,
                GumError,
            >(GumError::NotGitRepository),
            self.full_view().contains_key(group_name@) && (global || inside_repo) ==> match r {
                Ok(u) => u@ == self.full_view()[group_name@],
                Err(_) => false,
            },
    {
        let all = self.get_all_config_info();
        match all.get(group_name) {
            None => Err(GumError::InvalidGroupName),
            Some(u) => {
                if !global && !inside_repo {
                    Err(GumError::NotGitRepository)
                } else {
                    Ok(u.clone())
                }
            },
        }
    }
}

/// After a profile is stored with both fields supplied, the full profile
/// view contains exactly that identity under that name.
pub proof fn lemma_set_profile_visible(
    before: Config,
    after: Config,
    k: Seq<char>,
    n: Seq<char>,
    e: Seq<char>,
)
    requires
        k != reserved_name(),
        after.groups@ == before.groups@.insert(k, UserView { name: n, email: e }),
        after.global_user == before.global_user,
    ensures
        after.full_view().contains_key(k),
        after.full_view()[k] == (UserView { name: n, email: e }),
{
}

/// The scope-shadowing rule: the repository-local cache wins whenever it is
/// set, the system-wide cache is used when only it is set, and no identity
/// is effective when neither is set.
pub proof fn lemma_effective_shadowing(cfg: Config)
    ensures
        cfg.project_user is Some ==> cfg.effective_identity() == Some(cfg.project_user->0@),
        cfg.project_user is None && cfg.global_user is Some ==> cfg.effective_identity() == Some(
            cfg.global_user->0@,
        ),
        cfg.project_user is None && cfg.global_user is None ==> cfg.effective_identity() is None,
{
}

} // verus!
