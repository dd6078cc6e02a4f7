//! The workspace and vault roots, the workspace configuration, and the
//! error of making a sheet.
use vstd::prelude::*;

verus! {

/// A workspace: a local copy of a vault's files.
#[derive(Debug, Default, Clone, Copy)]
pub struct Workspace;

/// A vault: the upstream store of sheets and files.
#[derive(Debug, Default, Clone, Copy)]
pub struct Vault;

/// The configuration of a vault; it holds nothing yet.
#[derive(Debug, Default, Clone, Copy, PartialEq, Eq, Structural)]
pub struct VaultConfig {}

/// The configuration of a workspace: the upstream vault's address, the
/// vault's UUID and the account name, the last two when known.
#[derive(Debug, Clone)]
pub struct WorkspaceConfig {
    upstream: String,
    uuid: Option<String>,
    use_accout: Option<String>,
}

/// Model of a workspace configuration.
pub struct WorkspaceConfigView {
    pub upstream: Seq<char>,
    pub uuid: Option<Seq<char>>,
    pub account: Option<Seq<char>>,
}

/// The model of an optional string.
pub open spec fn opt_view(o: Option<String>) -> Option<Seq<char>> {
    match o {
        Some(s) => Some(s@),
        None => None,
    }
}

impl View for WorkspaceConfig {
    type V = WorkspaceConfigView;

    closed spec fn view(&self) -> WorkspaceConfigView {
        WorkspaceConfigView {
            upstream: self.upstream@,
            uuid: opt_view(self.uuid),
            account: opt_view(self.use_accout),
        }
    }
}

impl Default for WorkspaceConfig {
    /// An empty upstream address, no UUID and no account.
    fn default() -> (r: Self)
        ensures
            r@.upstream == Seq::<char>::empty(),
            r@.uuid is None,
            r@.account is None,
    {
        WorkspaceConfig { upstream: String::new(), uuid: None, use_accout: None }
    }
}

impl WorkspaceConfig {
    /// A configuration from its parts.
    pub fn new(upstream: String, uuid: Option<String>, account: Option<String>) -> (r: Self)
        ensures
            r@.upstream == upstream@,
            r@.uuid == opt_view(uuid),
            r@.account == opt_view(account),
    {
        WorkspaceConfig { upstream, uuid, use_accout: account }
    }

    /// The upstream address.
    pub fn upstream(&self) -> (r: &String)
        ensures
            r@ == self@.upstream,
    {
        &self.upstream
    }

    /// Sets the upstream address.
    pub fn set_upstream(&mut self, upstream: String)
        ensures
            final(self)@.upstream == upstream@,
            final(self)@.uuid == old(self)@.uuid,
            final(self)@.account == old(self)@.account,
    {
        self.upstream = upstream;
    }

    /// The configuration with the given upstream address.
    pub fn with_upstream(self, upstream: String) -> (r: Self)
        ensures
            r@.upstream == upstream@,
            r@.uuid == self@.uuid,
            r@.account == self@.account,
    {
        let mut s = self;
        s.upstream = upstream;
        s
    }

    /// The vault UUID, if known.
    pub fn uuid(&self) -> (r: Option<&String>)
        ensures
            match r {
                Some(s) => self@.uuid == Some(s@),
                None => self@.uuid is None,
            },
    {
        self.uuid.as_ref()
    }

    /// Sets the vault UUID.
    pub fn set_uuid(&mut self, uuid: String)
        ensures
            final(self)@.uuid == Some(uuid@),
            final(self)@.upstream == old(self)@.upstream,
            final(self)@.account == old(self)@.account,
    {
        self.uuid = Some(uuid);
    }

    /// The configuration with the given vault UUID.
    pub fn with_uuid(self, uuid: String) -> (r: Self)
        ensures
            r@.uuid == Some(uuid@),
            r@.upstream == self@.upstream,
            r@.account == self@.account,
    {
        let mut s = self;
        s.uuid = Some(uuid);
        s
    }

    /// Forgets the vault UUID.
    pub fn erase_uuid(&mut self)
        ensures
            final(self)@.uuid is None,
            final(self)@.upstream == old(self)@.upstream,
            final(self)@.account == old(self)@.account,
    {
        self.uuid = None;
    }

    /// The account name, if known.
    pub fn account(&self) -> (r: Option<&String>)
        ensures
            match r {
                Some(s) => self@.account == Some(s@),
                None => self@.account is None,
            },
    {
        self.use_accout.as_ref()
    }

    /// Sets the account name.
    pub fn set_account(&mut self, account: String)
        ensures
            final(self)@.account == Some(account@),
            final(self)@.upstream == old(self)@.upstream,
            final(self)@.uuid == old(self)@.uuid,
    {
        self.use_accout = Some(account);
    }

    /// The configuration with the given account name.
    pub fn with_account(self, account: String) -> (r: Self)
        ensures
            r@.account == Some(account@),
            r@.upstream == self@.upstream,
            r@.uuid == self@.uuid,
    {
        let mut s = self;
        s.use_accout = Some(account);
        s
    }

    /// Forgets the account name.
    pub fn erase_account(&mut self)
        ensures
            final(self)@.account is None,
            final(self)@.upstream == old(self)@.upstream,
            final(self)@.uuid == old(self)@.uuid,
    {
        self.use_accout = None;
    }

    /// Whether two configurations are equal: the same address, UUID and
    /// account.
    pub fn same_as(&self, other: &Self) -> (r: bool)
        ensures
            r == (self@.upstream == other@.upstream && self@.uuid == other@.uuid && self@.account == other@.account),
    {
        self.upstream == other.upstream && opt_eq(&self.uuid, &other.uuid) && opt_eq(
            &self.use_accout,
            &other.use_accout,
        )
    }
}

/// Whether two optional strings are equal.
fn opt_eq(a: &Option<String>, b: &Option<String>) -> (r: bool)
    ensures
        r == (opt_view(*a) == opt_view(*b)),
{
    match (a, b) {
        (Some(x), Some(y)) => *x == *y,
        (None, None) => true,
        _ => false,
    }
}

/// Error of making or dropping a sheet.
#[derive(Debug)]
pub enum MakeSheetError {
    SheetAlreadyExists,
    SheetNotFound,
    Io(std::io::Error),
    Other(String),
}

} // verus!
