//! Status values shared with the host's user interface: the sync status,
//! the authentication status, and the holders that keep the latest of each.
use vstd::prelude::*;

use crate::collector::outbound_rows;
use crate::store::LocalStore;

verus! {

/// Copies an optional string.
pub fn copy_opt_string(s: &Option<String>) -> (r: Option<String>)
    ensures
        r == *s,
{
    match s {
        Some(x) => Some(x.clone()),
        None => None,
    }
}

/// Copies a list of strings.
pub fn copy_strings(v: &Vec<String>) -> (r: Vec<String>)
    ensures
        r@ == v@,
{
    let mut out: Vec<String> = Vec::new();
    let mut i: usize = 0;
    while i < v.len()
        invariant
            i <= v@.len(),
            out@ == v@.subrange(0, i as int),
        decreases v.len() - i,
    {
        out.push(v[i].clone());
        i = i + 1;
        assert(out@ =~= v@.subrange(0, i as int));
    }
    assert(v@.subrange(0, v@.len() as int) =~= v@);
    out
}

/// Sync status as the user interface shows it.
#[derive(Debug)]
pub struct SharedSyncStatus {
    pub configured: bool,
    pub authenticated: bool,
    pub server_url: Option<String>,
    pub last_sync_at: Option<i64>,
    pub pending_changes: i32,
}

impl SharedSyncStatus {
    /// Not configured, not authenticated, nothing pending.
    pub fn unconfigured() -> (s: SharedSyncStatus)
        ensures
            !s.configured && !s.authenticated && s.server_url is None && s.last_sync_at is None
                && s.pending_changes == 0,
    {
        SharedSyncStatus {
            configured: false,
            authenticated: false,
            server_url: None,
            last_sync_at: None,
            pending_changes: 0,
        }
    }

    /// A field-by-field copy.
    pub fn copy(&self) -> (r: SharedSyncStatus)
        ensures
            r == *self,
    {
        SharedSyncStatus {
            configured: self.configured,
            authenticated: self.authenticated,
            server_url: copy_opt_string(&self.server_url),
            last_sync_at: self.last_sync_at,
            pending_changes: self.pending_changes,
        }
    }
}

/// Keeps the latest sync status.
pub struct SyncStatusHolder {
    status: SharedSyncStatus,
}

impl View for SyncStatusHolder {
    type V = SharedSyncStatus;

    closed spec fn view(&self) -> SharedSyncStatus {
        self.status
    }
}

impl SyncStatusHolder {
    /// A holder with the unconfigured status.
    pub fn new() -> (h: SyncStatusHolder)
        ensures
            !h@.configured && !h@.authenticated && h@.server_url is None && h@.last_sync_at is None
                && h@.pending_changes == 0,
    {
        SyncStatusHolder { status: SharedSyncStatus::unconfigured() }
    }

    /// The current status.
    pub fn get(&self) -> (s: SharedSyncStatus)
        ensures
            s == self@,
    {
        self.status.copy()
    }

    /// Replaces the status.
    pub fn update(&mut self, status: SharedSyncStatus)
        ensures
            final(self)@ == status,
    {
        self.status = status;
    }
}

/// A holder with the unconfigured status.
pub fn create_sync_status_holder() -> (h: SyncStatusHolder)
    ensures
        !h@.configured && !h@.authenticated && h@.server_url is None && h@.last_sync_at is None
            && h@.pending_changes == 0,
{
    SyncStatusHolder::new()
}

/// Authentication status as the user interface shows it.
#[derive(Debug)]
pub struct SharedAuthStatus {
    pub is_authenticated: bool,
    pub user_id: Option<String>,
    pub username: Option<String>,
    pub email: Option<String>,
    pub apps: Option<Vec<String>>,
    pub is_admin: Option<bool>,
    pub server_url: Option<String>,
}

/// Mathematical value of an authentication status.
pub struct AuthStatusView {
    pub is_authenticated: bool,
    pub user_id: Option<String>,
    pub username: Option<String>,
    pub email: Option<String>,
    pub apps: Option<Seq<String>>,
    pub is_admin: Option<bool>,
    pub server_url: Option<String>,
}

impl View for SharedAuthStatus {
    type V = AuthStatusView;

    open spec fn view(&self) -> AuthStatusView {
        AuthStatusView {
            is_authenticated: self.is_authenticated,
            user_id: self.user_id,
            username: self.username,
            email: self.email,
            apps: match self.apps {
                Some(a) => Some(a@),
                None => None,
            },
            is_admin: self.is_admin,
            server_url: self.server_url,
        }
    }
}

/// The signed-out status: nothing known.
pub open spec fn signed_out() -> AuthStatusView {
    AuthStatusView {
        is_authenticated: false,
        user_id: None,
        username: None,
        email: None,
        apps: None,
        is_admin: None,
        server_url: None,
    }
}

impl SharedAuthStatus {
    /// The signed-out status.
    pub fn signed_out() -> (s: SharedAuthStatus)
        ensures
            s@ == signed_out(),
    {
        SharedAuthStatus {
            is_authenticated: false,
            user_id: None,
            username: None,
            email: None,
            apps: None,
            is_admin: None,
            server_url: None,
        }
    }

    /// A field-by-field copy.
    pub fn copy(&self) -> (r: SharedAuthStatus)
        ensures
            r@ == self@,
    {
        SharedAuthStatus {
            is_authenticated: self.is_authenticated,
            user_id: copy_opt_string(&self.user_id),
            username: copy_opt_string(&self.username),
            email: copy_opt_string(&self.email),
            apps: match &self.apps {
                Some(a) => Some(copy_strings(a)),
                None => None,
            },
            is_admin: self.is_admin,
            server_url: copy_opt_string(&self.server_url),
        }
    }
}

/// Keeps the latest authentication status (signed out at first).
pub struct AuthStatusHolder {
    status: SharedAuthStatus,
}

impl View for AuthStatusHolder {
    type V = AuthStatusView;

    closed spec fn view(&self) -> AuthStatusView {
        self.status@
    }
}

impl AuthStatusHolder {
    /// A holder with the signed-out status.
    pub fn new() -> (h: AuthStatusHolder)
        ensures
            h@ == signed_out(),
    {
        AuthStatusHolder { status: SharedAuthStatus::signed_out() }
    }

    /// The current status.
    pub fn get(&self) -> (s: SharedAuthStatus)
        ensures
            s@ == self@,
    {
        self.status.copy()
    }

    /// Replaces the status.
    pub fn update(&mut self, status: SharedAuthStatus)
        ensures
            final(self)@ == status@,
    {
        self.status = status;
    }

    /// Signs out: back to the signed-out status.
    pub fn clear(&mut self)
        ensures
            final(self)@ == signed_out(),
    {
        self.status = SharedAuthStatus::signed_out();
    }
}

/// A holder with the signed-out status.
pub fn create_auth_status_holder() -> (h: AuthStatusHolder)
    ensures
        h@ == signed_out(),
{
    AuthStatusHolder::new()
}

/// What the server returns on login or registration.
#[derive(Debug)]
pub struct AuthResponse {
    pub user_id: String,
    pub access_token: String,
    pub refresh_token: String,
    pub apps: Option<Vec<String>>,
    pub is_admin: Option<bool>,
}

/// Authentication status of the desktop application.
#[derive(Debug)]
pub struct AuthStatus {
    pub is_authenticated: bool,
    pub user_id: Option<String>,
    pub apps: Option<Vec<String>>,
    pub is_admin: Option<bool>,
    pub server_url: Option<String>,
}

/// Sync status of the desktop application.
#[derive(Debug)]
pub struct SyncStatus {
    pub configured: bool,
    pub authenticated: bool,
    pub last_sync_at: Option<i64>,
    pub pending_changes: usize,
    pub server_url: Option<String>,
}

impl LocalStore {
    /// Number of dirty rows: the size of the next outbound batch.
    pub fn pending_changes(&self) -> (n: usize)
        requires
            self@.wf(),
        ensures
            n == outbound_rows(self@).len(),
    {
        self.collect().len()
    }
}

/// The sync status: configured when a server address is known, and the
/// number of rows waiting to be pushed.
pub fn sync_status(
    store: &LocalStore,
    authenticated: bool,
    server_url: Option<String>,
    last_sync_at: Option<i64>,
) -> (s: SyncStatus)
    requires
        store@.wf(),
    ensures
        s.configured == server_url is Some,
        s.authenticated == authenticated,
        s.last_sync_at == last_sync_at,
        s.pending_changes == outbound_rows(store@).len(),
        s.server_url == server_url,
{
    SyncStatus {
        configured: server_url.is_some(),
        authenticated,
        last_sync_at,
        pending_changes: store.pending_changes(),
        server_url,
    }
}

} // verus!
