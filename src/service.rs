//! Decisions of the HTTP control API: parameter validation, bearer authentication, error
//! status codes, and the checks each endpoint makes before it changes anything.
use vstd::prelude::*;

use crate::deploy::{Deployments, Handle};
use crate::func;
use crate::func::{FunctionManager, Key, OwnedKey};
use crate::proxy::{ascii_lower, lowered};
use crate::user;
use crate::user::{Group, Permission, UserManager};

verus! {

/// Errors of the control API.
#[derive(Debug)]
pub enum ApiError {
    Unauthorized,
    PermissionDenied,
    InvalidHeaderEncoding(String),
    InvalidAuthMethod,
    FunctionManager(func::ManagerError),
    UserManager(user::ManagerError),
    MissingContentType,
    UnsupportedArchiveType,
    NotFound,
    Io(String),
    InvalidKeyFormat,
    InstanceAlreadyRunning,
    InvalidSocketAddrAsUri(String),
    InvalidUsernameFormat,
    ModifyRootUser,
    FunctionNotRunning,
    MissingHost,
    InvalidUriParts(String),
    Client(String),
    WebsocketConnection(String),
}

/// HTTP status code of an error.
pub open spec fn status_of(e: ApiError) -> u16 {
    match e {
        ApiError::Unauthorized | ApiError::InvalidAuthMethod => 401,
        ApiError::PermissionDenied
        | ApiError::InvalidKeyFormat
        | ApiError::InvalidUsernameFormat
        | ApiError::ModifyRootUser
        | ApiError::FunctionNotRunning => 403,
        ApiError::InvalidHeaderEncoding(_)
        | ApiError::MissingContentType
        | ApiError::UnsupportedArchiveType
        | ApiError::MissingHost
        | ApiError::InvalidUriParts(_) => 400,
        ApiError::NotFound => 404,
        ApiError::Io(_)
        | ApiError::InvalidSocketAddrAsUri(_)
        | ApiError::Client(_)
        | ApiError::WebsocketConnection(_) => 500,
        ApiError::InstanceAlreadyRunning => 409,
        ApiError::FunctionManager(f) => match f {
            func::ManagerError::NotAliased => 403,
            func::ManagerError::Io(_)
            | func::ManagerError::ParseJson(_)
            | func::ManagerError::Initialized => 500,
            func::ManagerError::Duplicated => 409,
            func::ManagerError::NotFound => 404,
        },
        ApiError::UserManager(u) => match u {
            user::ManagerError::Io(_)
            | user::ManagerError::ParseJson(_)
            | user::ManagerError::Initialized => 500,
            user::ManagerError::Duplicated => 409,
            user::ManagerError::NotFound => 404,
        },
    }
}

impl ApiError {
    /// HTTP status code of this error.
    pub fn status_code(&self) -> (r: u16)
        ensures
            r == status_of(*self),
    {
        match self {
            ApiError::Unauthorized | ApiError::InvalidAuthMethod => 401,
            ApiError::PermissionDenied
            | ApiError::InvalidKeyFormat
            | ApiError::InvalidUsernameFormat
            | ApiError::ModifyRootUser
            | ApiError::FunctionNotRunning => 403,
            ApiError::InvalidHeaderEncoding(_)
            | ApiError::MissingContentType
            | ApiError::UnsupportedArchiveType
            | ApiError::MissingHost
            | ApiError::InvalidUriParts(_) => 400,
            ApiError::NotFound => 404,
            ApiError::Io(_)
            | ApiError::InvalidSocketAddrAsUri(_)
            | ApiError::Client(_)
            | ApiError::WebsocketConnection(_) => 500,
            ApiError::InstanceAlreadyRunning => 409,
            ApiError::FunctionManager(f) => match f {
                func::ManagerError::NotAliased => 403,
                func::ManagerError::Io(_)
                | func::ManagerError::ParseJson(_)
                | func::ManagerError::Initialized => 500,
                func::ManagerError::Duplicated => 409,
                func::ManagerError::NotFound => 404,
            },
            ApiError::UserManager(u) => match u {
                user::ManagerError::Io(_)
                | user::ManagerError::ParseJson(_)
                | user::ManagerError::Initialized => 500,
                user::ManagerError::Duplicated => 409,
                user::ManagerError::NotFound => 404,
            },
        }
    }
}

/// A character allowed in function names, versions and aliases: `a-z`, `0-9`, `-`.
pub open spec fn key_char(c: char) -> bool {
    ('a' <= c && c <= 'z') || ('0' <= c && c <= '9') || c == '-'
}

/// A character allowed in user names: `A-Z`, `a-z`, `0-9`, `-`.
pub open spec fn username_char(c: char) -> bool {
    ('a' <= c && c <= 'z') || ('A' <= c && c <= 'Z') || ('0' <= c && c <= '9') || c == '-'
}

/// A valid part of a function key: non-empty, of key characters only.
pub open spec fn valid_key_part(s: Seq<char>) -> bool {
    s.len() > 0 && forall|i: int| 0 <= i < s.len() ==> key_char(#[trigger] s[i])
}

/// A valid user name: non-empty, of user name characters only.
pub open spec fn valid_username(s: Seq<char>) -> bool {
    s.len() > 0 && forall|i: int| 0 <= i < s.len() ==> username_char(#[trigger] s[i])
}

/// Checks a function name, version or alias.
pub fn validate_key_param(name: &str) -> (r: Result<(), ApiError>)
    ensures
        r is Ok <==> valid_key_part(name@),
        r is Err ==> r matches Err(ApiError::InvalidKeyFormat),
{
    let n = name.unicode_len();
    if n == 0 {
        return Err(ApiError::InvalidKeyFormat);
    }
    let mut i: usize = 0;
    while i < n
        invariant
            n == name@.len(),
            i <= n,
            forall|j: int| 0 <= j < i ==> key_char(#[trigger] name@[j]),
        decreases n - i,
    {
        let c = name.get_char(i);
        if !(('a' <= c && c <= 'z') || ('0' <= c && c <= '9') || c == '-') {
            return Err(ApiError::InvalidKeyFormat);
        }
        i = i + 1;
    }
    Ok(())
}

/// Checks a user name.
pub fn validate_username_param(name: &str) -> (r: Result<(), ApiError>)
    ensures
        r is Ok <==> valid_username(name@),
        r is Err ==> r matches Err(ApiError::InvalidUsernameFormat),
{
    let n = name.unicode_len();
    if n == 0 {
        return Err(ApiError::InvalidUsernameFormat);
    }
    let mut i: usize = 0;
    while i < n
        invariant
            n == name@.len(),
            i <= n,
            forall|j: int| 0 <= j < i ==> username_char(#[trigger] name@[j]),
        decreases n - i,
    {
        let c = name.get_char(i);
        if !(('a' <= c && c <= 'z') || ('A' <= c && c <= 'Z') || ('0' <= c && c <= '9') || c
            == '-') {
            return Err(ApiError::InvalidUsernameFormat);
        }
        i = i + 1;
    }
    Ok(())
}

/// Validity of days a requested token lasts when the request names none.
pub fn default_token_duration_days() -> (r: u32)
    ensures
        r == 10,
{
    10
}

/// Permission bits of an endpoint's requirement mask.
pub const READ: u32 = 1;
pub const WRITE: u32 = 2;
pub const EXECUTE: u32 = 4;
pub const REMOVE: u32 = 8;
pub const ADMIN: u32 = 16;
pub const ROOT: u32 = 32;

/// The permission a single bit of the mask stands for.
pub open spec fn bit_permission(bit: u32) -> Option<Permission> {
    if bit == READ {
        Some(Permission::Read)
    } else if bit == WRITE {
        Some(Permission::Write)
    } else if bit == EXECUTE {
        Some(Permission::Execute)
    } else if bit == REMOVE {
        Some(Permission::Remove)
    } else if bit == ADMIN {
        Some(Permission::Admin)
    } else if bit == ROOT {
        Some(Permission::Root)
    } else {
        None
    }
}

/// Converts a single permission bit to its permission.
pub fn to_permission(bit: u32) -> (r: Option<Permission>)
    ensures
        r == bit_permission(bit),
{
    if bit == READ {
        Some(Permission::Read)
    } else if bit == WRITE {
        Some(Permission::Write)
    } else if bit == EXECUTE {
        Some(Permission::Execute)
    } else if bit == REMOVE {
        Some(Permission::Remove)
    } else if bit == ADMIN {
        Some(Permission::Admin)
    } else if bit == ROOT {
        Some(Permission::Root)
    } else {
        None
    }
}

/// `p` if `bit` is set in `mask`.
pub open spec fn if_set(mask: u32, bit: u32, p: Permission) -> Seq<Permission> {
    if mask & bit != 0 {
        seq![p]
    } else {
        seq![]
    }
}

/// The permissions a mask requires, in bit order.
pub open spec fn mask_permissions(mask: u32) -> Seq<Permission> {
    if_set(mask, READ, Permission::Read) + if_set(mask, WRITE, Permission::Write) + if_set(
        mask,
        EXECUTE,
        Permission::Execute,
    ) + if_set(mask, REMOVE, Permission::Remove) + if_set(mask, ADMIN, Permission::Admin)
        + if_set(mask, ROOT, Permission::Root)
}

/// `gs` are the permission groups of `ps`, in order.
pub open spec fn permission_groups_of(gs: Seq<Group>, ps: Seq<Permission>) -> bool {
    gs.len() == ps.len() && forall|i: int|
        0 <= i < gs.len() ==> (#[trigger] gs[i])@ == user::GroupView::Permission(ps[i])
}

/// Pushes the group of `p` when `bit` is set in `mask`.
fn push_if_set(out: &mut Vec<Group>, mask: u32, bit: u32, p: Permission, Ghost(ps): Ghost<
    Seq<Permission>,
>)
    requires
        permission_groups_of(old(out)@, ps),
    ensures
        permission_groups_of(final(out)@, ps + if_set(mask, bit, p)),
{
    if mask & bit != 0 {
        out.push(Group::Permission(p));
        assert(ps + if_set(mask, bit, p) =~= ps.push(p));
    } else {
        assert(ps + if_set(mask, bit, p) =~= ps);
    }
}

/// The permission groups an endpoint's requirement mask asks for, in bit order.
pub fn permission_groups(mask: u32) -> (r: Vec<Group>)
    ensures
        permission_groups_of(r@, mask_permissions(mask)),
{
    let mut out: Vec<Group> = Vec::new();
    push_if_set(&mut out, mask, READ, Permission::Read, Ghost(Seq::empty()));
    assert(Seq::<Permission>::empty() + if_set(mask, READ, Permission::Read) =~= if_set(mask, READ, Permission::Read));
    push_if_set(&mut out, mask, WRITE, Permission::Write, Ghost(if_set(mask, READ, Permission::Read)));
    push_if_set(
        &mut out,
        mask,
        EXECUTE,
        Permission::Execute,
        Ghost(if_set(mask, READ, Permission::Read) + if_set(mask, WRITE, Permission::Write)),
    );
    push_if_set(
        &mut out,
        mask,
        REMOVE,
        Permission::Remove,
        Ghost(if_set(mask, READ, Permission::Read) + if_set(mask, WRITE, Permission::Write) + if_set(
            mask,
            EXECUTE,
            Permission::Execute,
        )),
    );
    push_if_set(
        &mut out,
        mask,
        ADMIN,
        Permission::Admin,
        Ghost(if_set(mask, READ, Permission::Read) + if_set(mask, WRITE, Permission::Write) + if_set(
            mask,
            EXECUTE,
            Permission::Execute,
        ) + if_set(mask, REMOVE, Permission::Remove)),
    );
    push_if_set(
        &mut out,
        mask,
        ROOT,
        Permission::Root,
        Ghost(if_set(mask, READ, Permission::Read) + if_set(mask, WRITE, Permission::Write) + if_set(
            mask,
            EXECUTE,
            Permission::Execute,
        ) + if_set(mask, REMOVE, Permission::Remove) + if_set(mask, ADMIN, Permission::Admin)),
    );
    out
}

/// ASCII whitespace.
pub open spec fn ascii_space(c: char) -> bool {
    c == ' ' || c == '\t' || c == '\n' || c == '\r' || c == '\x0c'
}

/// `s` without leading ASCII whitespace.
pub open spec fn trim_start(s: Seq<char>) -> Seq<char>
    decreases s.len(),
{
    if s.len() > 0 && ascii_space(s[0]) {
        trim_start(s.skip(1))
    } else {
        s
    }
}

/// `s` without trailing ASCII whitespace.
pub open spec fn trim_end(s: Seq<char>) -> Seq<char>
    decreases s.len(),
{
    if s.len() > 0 && ascii_space(s.last()) {
        trim_end(s.drop_last())
    } else {
        s
    }
}

/// `s` without surrounding ASCII whitespace.
pub open spec fn trim(s: Seq<char>) -> Seq<char> {
    trim_end(trim_start(s))
}

/// Removes surrounding ASCII whitespace. Header values are visible ASCII, so no other
/// whitespace can surround a token.
pub fn trim_ascii(s: &str) -> (r: String)
    ensures
        r@ == trim(s@),
{
    let n = s.unicode_len();
    let mut i: usize = 0;
    assert(s@.skip(0) =~= s@);
    while i < n && is_space(s.get_char(i))
        invariant
            n == s@.len(),
            i <= n,
            trim_start(s@) == trim_start(s@.skip(i as int)),
        decreases n - i,
    {
        proof {
            assert(s@.skip(i as int).skip(1) =~= s@.skip(i as int + 1));
        }
        i = i + 1;
    }
    proof {
        assert(trim_start(s@.skip(i as int)) == s@.skip(i as int));
        assert(s@.skip(i as int) =~= s@.subrange(i as int, n as int));
    }
    let mut j: usize = n;
    while j > i && is_space(s.get_char(j - 1))
        invariant
            n == s@.len(),
            i <= j <= n,
            trim(s@) == trim_end(s@.subrange(i as int, j as int)),
        decreases j,
    {
        proof {
            assert(s@.subrange(i as int, j as int).drop_last() =~= s@.subrange(i as int, j - 1));
        }
        j = j - 1;
    }
    s.substring_char(i, j).to_owned()
}

/// Whether `c` is ASCII whitespace.
fn is_space(c: char) -> (r: bool)
    ensures
        r == ascii_space(c),
{
    c == ' ' || c == '\t' || c == '\n' || c == '\r' || c == '\x0c'
}

/// Scheme prefix of an `Authorization` header.
pub open spec fn bearer_prefix() -> Seq<char> {
    "Bearer "@
}

/// The token of an `Authorization` header value: what follows `Bearer `, trimmed.
pub open spec fn bearer_of(h: Seq<char>) -> Option<Seq<char>> {
    if h.len() >= 7 && h.take(7) == bearer_prefix() {
        Some(trim(h.skip(7)))
    } else {
        None
    }
}

/// Extracts the token of an `Authorization` header.
pub fn bearer_token(header: Option<&str>) -> (r: Result<String, ApiError>)
    ensures
        header is None ==> r matches Err(ApiError::Unauthorized),
        header matches Some(h) ==> match bearer_of(h@) {
            Some(t) => r matches Ok(s) && s@ == t,
            None => r matches Err(ApiError::InvalidAuthMethod),
        },
{
    let h = match header {
        None => {
            return Err(ApiError::Unauthorized);
        },
        Some(h) => h,
    };
    proof {
        reveal_strlit("Bearer ");
    }
    let n = h.unicode_len();
    if n < 7 || h.substring_char(0, 7).to_owned() != "Bearer ".to_owned() {
        return Err(ApiError::InvalidAuthMethod);
    }
    Ok(trim_ascii(h.substring_char(7, n)))
}

/// Authenticates a request from its `Authorization` header for the permissions of `mask`
/// at `now`, and returns its token.
pub fn authenticate(users: &UserManager, header: Option<&str>, mask: u32, now: i128) -> (r:
    Result<String, ApiError>)
    requires
        users.wf(),
    ensures
        header is None ==> r matches Err(ApiError::Unauthorized),
        header matches Some(h) ==> match bearer_of(h@) {
            None => r matches Err(ApiError::InvalidAuthMethod),
            Some(t) => exists|gs: Seq<Group>|
                permission_groups_of(gs, mask_permissions(mask)) && if users.grants(t, gs, now) {
                    r matches Ok(s) && s@ == t
                } else {
                    r matches Err(ApiError::PermissionDenied)
                },
        },
{
    let token = bearer_token(header)?;
    let groups = permission_groups(mask);
    if users.auth_at(token.as_str(), &groups, now) {
        Ok(token)
    } else {
        Err(ApiError::PermissionDenied)
    }
}

/// Format of an uploaded archive.
#[derive(Debug, Clone, Copy, PartialEq, Eq, Structural)]
pub enum ArchiveKind {
    /// A tarball.
    Tar,
    /// A gzipped tarball.
    Gzip,
}

/// The archive format a `Content-Type` names, if it is a supported one.
pub open spec fn archive_of(content_type: Seq<char>) -> Option<ArchiveKind> {
    if content_type == "application/x-tar"@ {
        Some(ArchiveKind::Tar)
    } else if content_type == "application/gzip"@ || content_type == "application/x-gzip"@ {
        Some(ArchiveKind::Gzip)
    } else {
        None
    }
}

/// The archive format a `Content-Type` names.
pub fn archive_kind(content_type: &str) -> (r: Result<ArchiveKind, ApiError>)
    ensures
        match archive_of(content_type@) {
            Some(k) => r == Ok::<ArchiveKind, ApiError>(k),
            None => r matches Err(ApiError::UnsupportedArchiveType),
        },
{
    let t = content_type.to_owned();
    if t == "application/x-tar".to_owned() {
        Ok(ArchiveKind::Tar)
    } else if t == "application/gzip".to_owned() || t == "application/x-gzip".to_owned() {
        Ok(ArchiveKind::Gzip)
    } else {
        Err(ApiError::UnsupportedArchiveType)
    }
}

/// Groups of a function's configuration: its group, if any.
pub open spec fn config_groups(f: func::Function) -> Seq<user::GroupView> {
    match f.config.group {
        Some(g) => seq![g@],
        None => seq![],
    }
}

/// Views of groups.
pub open spec fn group_views(gs: Seq<Group>) -> Seq<user::GroupView> {
    gs.map_values(|g: Group| g@)
}

/// Checks that `token` may act on the function `key` resolves to: it must hold the group
/// the function requires, if any.
pub fn function_access(
    funcs: &FunctionManager,
    users: &UserManager,
    token: &str,
    key: Key<'_>,
    now: i128,
) -> (r: Result<(), ApiError>)
    requires
        funcs.wf(),
        users.wf(),
    ensures
        !func::occupied(funcs@, key.name@, key.version@) ==> r matches Err(ApiError::NotFound),
        func::occupied(funcs@, key.name@, key.version@) ==> exists|i: int, gs: Seq<Group>|
            func::resolves_to(funcs@, key.name@, key.version@, i) && group_views(gs)
                == config_groups(funcs@[i]) && if users.grants(token@, gs, now) {
                r is Ok
            } else {
                r matches Err(ApiError::PermissionDenied)
            },
{
    let f = match funcs.get(key) {
        None => {
            return Err(ApiError::NotFound);
        },
        Some(f) => f,
    };
    let mut groups: Vec<Group> = Vec::new();
    if let Some(g) = &f.config.group {
        groups.push(g.copied());
    }
    proof {
        assert(group_views(groups@) =~= config_groups(*f));
    }
    if users.auth_at(token, &groups, now) {
        Ok(())
    } else {
        Err(ApiError::PermissionDenied)
    }
}

/// A user as the API shows and accepts it.
#[derive(Debug)]
pub struct ClientUser {
    pub name: String,
    pub groups: Vec<Group>,
}

/// Body of an alias request: `Some` to add or change the alias, `None` to remove it.
#[derive(Debug)]
pub struct AliasRequest {
    pub alias: Option<String>,
}

/// Body of a status response.
#[derive(Debug)]
pub struct StatusResponse {
    pub running: bool,
}

/// Body of a token request.
#[derive(Debug)]
pub struct RequestTokenRequest {
    /// Token valid duration in days.
    pub duration: u32,
    /// Name of the user the token is issued to.
    pub user: String,
}

/// `c` shows user `u`.
pub open spec fn shows(c: ClientUser, u: user::User) -> bool {
    c.name@ == u.name@ && group_views(c.groups@) == group_views(u.groups@)
}

/// `c` shows the root account: named `root`, in the root permission group.
pub open spec fn shows_root(c: ClientUser) -> bool {
    c.name@ == user::root_name() && group_views(c.groups@) == seq![
        user::GroupView::Permission(Permission::Root),
    ]
}

/// The API's view of a user.
pub fn client_from_ref(u: &user::User) -> (r: ClientUser)
    ensures
        shows(r, *u),
{
    let groups = user::copy_groups(&u.groups);
    assert(group_views(groups@) =~= group_views(u.groups@));
    ClientUser { name: u.name.clone(), groups }
}

/// The API's view of the root account.
pub fn root_client() -> (r: ClientUser)
    ensures
        shows_root(r),
{
    let groups = vec![Group::Permission(Permission::Root)];
    assert(group_views(groups@) =~= seq![user::GroupView::Permission(Permission::Root)]);
    ClientUser { name: "root".to_owned(), groups }
}

/// The lowercase letter of an ASCII uppercase letter, as text.
fn lower_letter(c: char) -> (r: &'static str)
    requires
        'A' <= c <= 'Z',
    ensures
        r@ == seq![ascii_lower(c)],
{
    proof {
        reveal_strlit("a");
        reveal_strlit("b");
        reveal_strlit("c");
        reveal_strlit("d");
        reveal_strlit("e");
        reveal_strlit("f");
        reveal_strlit("g");
        reveal_strlit("h");
        reveal_strlit("i");
        reveal_strlit("j");
        reveal_strlit("k");
        reveal_strlit("l");
        reveal_strlit("m");
        reveal_strlit("n");
        reveal_strlit("o");
        reveal_strlit("p");
        reveal_strlit("q");
        reveal_strlit("r");
        reveal_strlit("s");
        reveal_strlit("t");
        reveal_strlit("u");
        reveal_strlit("v");
        reveal_strlit("w");
        reveal_strlit("x");
        reveal_strlit("y");
        reveal_strlit("z");
    }
    let r = match c {
        'A' => "a",
        'B' => "b",
        'C' => "c",
        'D' => "d",
        'E' => "e",
        'F' => "f",
        'G' => "g",
        'H' => "h",
        'I' => "i",
        'J' => "j",
        'K' => "k",
        'L' => "l",
        'M' => "m",
        'N' => "n",
        'O' => "o",
        'P' => "p",
        'Q' => "q",
        'R' => "r",
        'S' => "s",
        'T' => "t",
        'U' => "u",
        'V' => "v",
        'W' => "w",
        'X' => "x",
        'Y' => "y",
        _ => "z",
    };
    assert(r@ =~= seq![ascii_lower(c)]);
    r
}

/// ASCII lowercase of `s`: letters `A` to `Z` become `a` to `z`, every other character is
/// unchanged.
pub fn to_ascii_lowercase(s: &str) -> (r: String)
    ensures
        r@ == lowered(s@),
{
    let n = s.unicode_len();
    let mut out = String::new();
    let mut i: usize = 0;
    while i < n
        invariant
            n == s@.len(),
            i <= n,
            out@ == lowered(s@.take(i as int)),
        decreases n - i,
    {
        let c = s.get_char(i);
        if 'A' <= c && c <= 'Z' {
            out.append(lower_letter(c));
        } else {
            out.append(s.substring_char(i, i + 1));
        }
        proof {
            assert(s@.take(i as int + 1) =~= s@.take(i as int).push(c));
            assert(lowered(s@.take(i as int + 1)) =~= lowered(s@.take(i as int)).push(ascii_lower(c)));
        }
        i = i + 1;
    }
    assert(s@.take(i as int) =~= s@);
    out
}

/// The permission groups among `gs`, in order.
pub open spec fn only_permissions(gs: Seq<user::GroupView>) -> Seq<user::GroupView> {
    gs.filter(|g: user::GroupView| g is Permission)
}

/// Keeps the permission groups of `gs`: a caller may only grant permissions it holds.
pub fn permission_only(gs: &Vec<Group>) -> (r: Vec<Group>)
    ensures
        group_views(r@) == only_permissions(group_views(gs@)),
{
    let mut out: Vec<Group> = Vec::new();
    let mut i: usize = 0;
    while i < gs.len()
        invariant
            i <= gs@.len(),
            group_views(out@) == only_permissions(group_views(gs@.take(i as int))),
        decreases gs@.len() - i,
    {
        proof {
            reveal(Seq::filter);
            assert(gs@.take(i as int + 1) =~= gs@.take(i as int).push(gs@[i as int]));
            assert(group_views(gs@.take(i as int + 1)) =~= group_views(gs@.take(i as int)).push(
                gs@[i as int]@,
            ));
            assert(group_views(gs@.take(i as int + 1)).drop_last() =~= group_views(
                gs@.take(i as int),
            ));
        }
        if let Group::Permission(_) = &gs[i] {
            let ghost before = out@;
            out.push(gs[i].copied());
            assert(group_views(out@) =~= group_views(before).push(gs@[i as int]@));
        }
        i = i + 1;
    }
    assert(gs@.take(i as int) =~= gs@);
    out
}

/// Adds the user of a request, named by the lowercase of the requested name. The caller must
/// hold every permission it grants.
pub fn add_user(users: &mut UserManager, token: &str, req: ClientUser, now: i128) -> (r: Result<
    (),
    ApiError,
>)
    requires
        old(users).wf(),
    ensures
        final(users).wf(),
        !valid_username(req.name@) ==> (r matches Err(ApiError::InvalidUsernameFormat))
            && final(users).users_view() == old(users).users_view(),
        valid_username(req.name@) ==> exists|gs: Seq<Group>|
            group_views(gs) == only_permissions(group_views(req.groups@)) && if !old(users).grants(token@, gs, now) {
                r matches Err(ApiError::PermissionDenied) && final(users).users_view() == old(users).users_view()
            } else if lowered(req.name@) == user::root_name() || user::has_user(
                old(users).users_view(),
                lowered(req.name@),
            ) {
                r matches Err(ApiError::UserManager(user::ManagerError::Duplicated))
                    && final(users).users_view() == old(users).users_view()
            } else {
                r is Ok && final(users).users_view().len() == old(users).users_view().len() + 1
                    && final(users).users_view().drop_last() == old(users).users_view()
                    && final(users).users_view().last().name@ == lowered(req.name@)
                    && user::distinct_groups(final(users).users_view().last().groups@)
                    && (forall|g: user::GroupView|
                    user::has_group(final(users).users_view().last().groups@, g)
                        <==> user::has_group(req.groups@, g))
                    && final(users).users_view().last().tokens@.len() == 0
                    && final(users).index_view() == old(users).index_view() && final(users).dirty_flag()
            },
{
    validate_username_param(req.name.as_str())?;
    let granted = permission_only(&req.groups);
    if !users.auth_at(token, &granted, now) {
        return Err(ApiError::PermissionDenied);
    }
    let name = to_ascii_lowercase(req.name.as_str());
    let u = user::User::new(name, req.groups);
    match users.add(u) {
        Ok(()) => Ok(()),
        Err(e) => Err(ApiError::UserManager(e)),
    }
}

/// Replaces the groups of the user a request names. The caller must hold every permission it
/// grants; the root account cannot be changed.
pub fn modify_user(users: &mut UserManager, token: &str, req: ClientUser, now: i128) -> (r: Result<
    (),
    ApiError,
>)
    requires
        old(users).wf(),
    ensures
        final(users).wf(),
        exists|gs: Seq<Group>|
            group_views(gs) == only_permissions(group_views(req.groups@)) && if !old(users).grants(token@, gs, now) {
                r matches Err(ApiError::PermissionDenied) && final(users).users_view() == old(users).users_view()
            } else if req.name@ == user::root_name() {
                r matches Err(ApiError::ModifyRootUser) && final(users).users_view() == old(users).users_view()
            } else if !user::has_user(old(users).users_view(), req.name@) {
                r matches Err(ApiError::UserManager(user::ManagerError::NotFound)) && final(users).users_view() == old(users).users_view()
            } else {
                r is Ok && user::groups_replaced(*old(users), *final(users), req.name@, req.groups@)
            },
{
    let granted = permission_only(&req.groups);
    if !users.auth_at(token, &granted, now) {
        return Err(ApiError::PermissionDenied);
    }
    match users.set_groups(req.name.as_str(), req.groups) {
        Ok(Some(())) => Ok(()),
        Ok(None) => Err(ApiError::ModifyRootUser),
        Err(e) => Err(ApiError::UserManager(e)),
    }
}

/// Shows a user to the holder of `token`: itself when no name is given or its own name is,
/// any user to an administrator or the root account, and the root account as `root`.
pub fn get_user(users: &UserManager, token: &str, name: Option<&str>) -> (r: Result<
    ClientUser,
    ApiError,
>)
    requires
        users.wf(),
    ensures
        (token@ == users.root_token_view() || user::registered(
            users.index_view(),
            token@,
            user::root_name(),
        )) ==> match name {
            None => r matches Ok(c) && shows_root(c),
            Some(n) => if n@ == user::root_name() {
                r matches Ok(c) && shows_root(c)
            } else {
                peeked(users, n@, r)
            },
        },
        token@ != users.root_token_view() && !user::indexed(users.index_view(), token@) ==> r
            matches Err(ApiError::UserManager(user::ManagerError::NotFound)),
        forall|k: int|
            0 <= k < users.users_view().len() && token@ != users.root_token_view()
                && users.users_view()[k].name@ != user::root_name() && user::registered(
                users.index_view(),
                token@,
                (#[trigger] users.users_view()[k]).name@,
            ) ==> {
                let me = users.users_view()[k];
                if name is None || name->0@ == me.name@ {
                    r matches Ok(c) && shows(c, me)
                } else if user::member(
                    me.name@,
                    me.groups@,
                    user::GroupView::Permission(Permission::Admin),
                ) {
                    if name->0@ == user::root_name() {
                        r matches Ok(c) && shows_root(c)
                    } else {
                        peeked(users, name->0@, r)
                    }
                } else {
                    r matches Err(ApiError::PermissionDenied)
                }
            },
{
    let me = match users.peek_from_token(token) {
        Err(e) => {
            return Err(ApiError::UserManager(e));
        },
        Ok(me) => me,
    };
    proof {
        if me is None && token@ != users.root_token_view() {
            assert forall|k: int|
                0 <= k < users.users_view().len() && user::registered(
                    users.index_view(),
                    token@,
                    (#[trigger] users.users_view()[k]).name@,
                ) implies users.users_view()[k].name@ == user::root_name() by {
                user::registered_token_names_owner(
                    users,
                    token@,
                    user::root_name(),
                    users.users_view()[k].name@,
                );
            }
        }
    }
    match me {
        None => match name {
            None => Ok(root_client()),
            Some(n) => {
                match users.peek(n) {
                    Ok(Some(u)) => Ok(client_from_ref(u)),
                    Ok(None) => Ok(root_client()),
                    Err(e) => Err(ApiError::UserManager(e)),
                }
            },
        },
        Some(me) => {
            proof {
                if user::registered(users.index_view(), token@, user::root_name()) {
                    user::registered_token_names_owner(users, token@, me.name@, user::root_name());
                }
                let us = users.users_view();
                let i = choose|i: int| 0 <= i < us.len() && *me == us[i];
                assert forall|k: int|
                    0 <= k < us.len() && user::registered(users.index_view(), token@, (#[trigger] us[k]).name@)
                        implies us[k] == *me by {
                    user::registered_token_names_owner(users, token@, me.name@, us[k].name@);
                    if k != i {
                        assert(us[k].name@ != us[i].name@);
                    }
                }
            }
            let own = match name {
                None => true,
                Some(n) => n.to_owned() == me.name,
            };
            if own {
                return Ok(client_from_ref(me));
            }
            if !me.is_in(&Group::Permission(Permission::Admin)) {
                return Err(ApiError::PermissionDenied);
            }
            match name {
                None => Ok(client_from_ref(me)),
                Some(n) => match users.peek(n) {
                    Ok(Some(u)) => Ok(client_from_ref(u)),
                    Ok(None) => Ok(root_client()),
                    Err(e) => Err(ApiError::UserManager(e)),
                },
            }
        },
    }
}

/// `r` shows the stored user named `n`, or is the not-found error when there is none.
pub open spec fn peeked(users: &UserManager, n: Seq<char>, r: Result<ClientUser, ApiError>) -> bool {
    if user::has_user(users.users_view(), n) {
        exists|i: int|
            user::user_at(users.users_view(), n, i) && (r matches Ok(c) && shows(
                c,
                users.users_view()[i],
            ))
    } else {
        r matches Err(ApiError::UserManager(user::ManagerError::NotFound))
    }
}

/// Registers an upload of `key` by the holder of `token`: the key must be valid, the token
/// must name a user, and the archive must be a tarball or a gzipped tarball. The function is
/// added with the uploader's singular group; unpacking the archive is up to the caller.
pub fn register_upload(
    funcs: &mut FunctionManager,
    users: &UserManager,
    token: &str,
    key: &OwnedKey,
    content_type: &str,
) -> (r: Result<ArchiveKind, ApiError>)
    requires
        old(funcs).wf(),
        users.wf(),
    ensures
        final(funcs).wf(),
        r is Err ==> final(funcs)@ == old(funcs)@,
        !valid_key_part(key.name@) || !valid_key_part(key.version@) ==> r matches Err(
            ApiError::InvalidKeyFormat,
        ),
        r is Ok ==> {
            &&& valid_key_part(key.name@) && valid_key_part(key.version@)
            &&& indexed_or_root(users, token@)
            &&& final(funcs)@.len() == old(funcs)@.len() + 1
            &&& final(funcs)@.drop_last() == old(funcs)@
            &&& func::fresh_defaults(final(funcs)@.last(), key.name@, key.version@)
            &&& exists|o: Seq<char>|
                uploader(users, token@, o) && (final(funcs)@.last().config.group matches Some(g)
                    && g@ == user::GroupView::Singular(o))
        },
        valid_key_part(key.name@) && valid_key_part(key.version@) && !indexed_or_root(users, token@)
            ==> r matches Err(ApiError::Unauthorized),
        valid_key_part(key.name@) && valid_key_part(key.version@) && indexed_or_root(users, token@)
            ==> match archive_of(content_type@) {
            None => r matches Err(ApiError::UnsupportedArchiveType),
            Some(k) => if func::occupied(old(funcs)@, key.name@, key.version@) {
                r matches Err(ApiError::FunctionManager(func::ManagerError::Duplicated))
            } else {
                r == Ok::<ArchiveKind, ApiError>(k)
            },
        },
{
    validate_key_param(key.name.as_str())?;
    validate_key_param(key.version.as_str())?;
    let owner = match users.user_name(token) {
        None => {
            return Err(ApiError::Unauthorized);
        },
        Some(n) => n,
    };
    let kind = archive_kind(content_type)?;
    let ghost o = owner@;
    assert(uploader(users, token@, o));
    match funcs.add_func(key.as_ref(), Some(Group::Singular(owner))) {
        Ok(()) => Ok(kind),
        Err(e) => Err(ApiError::FunctionManager(e)),
    }
}

/// `o` is the name of the holder of `t`: `root` for the root token, else the user `t` is
/// indexed for.
pub open spec fn uploader(users: &UserManager, t: Seq<char>, o: Seq<char>) -> bool {
    if t == users.root_token_view() {
        o == user::root_name()
    } else {
        user::registered(users.index_view(), t, o)
    }
}

/// `t` is the root token or an indexed token.
pub open spec fn indexed_or_root(users: &UserManager, t: Seq<char>) -> bool {
    t == users.root_token_view() || user::indexed(users.index_view(), t)
}

/// Maps a registry result to the API's errors.
fn registry_result<T>(r: Result<T, func::ManagerError>) -> (out: Result<T, ApiError>)
    ensures
        r matches Ok(v) ==> out matches Ok(w) && w == v,
        r matches Err(e) ==> out matches Err(ApiError::FunctionManager(f)) && f == e,
{
    match r {
        Ok(v) => Ok(v),
        Err(e) => Err(ApiError::FunctionManager(e)),
    }
}

/// Replaces the configuration of a function the holder of `token` may act on.
pub fn override_config(
    funcs: &mut FunctionManager,
    users: &UserManager,
    token: &str,
    key: Key<'_>,
    config: func::Config,
    now: i128,
) -> (r: Result<(), ApiError>)
    requires
        old(funcs).wf(),
        users.wf(),
    ensures
        final(funcs).wf(),
        r is Err ==> final(funcs)@ == old(funcs)@,
        !func::occupied(old(funcs)@, key.name@, key.version@) ==> r matches Err(ApiError::NotFound),
        r is Ok ==> exists|i: int|
            func::resolves_to(old(funcs)@, key.name@, key.version@, i) && final(funcs)@ == old(funcs)@.update(i, func::with_config(old(funcs)@[i], config)),
        func::occupied(old(funcs)@, key.name@, key.version@) ==> exists|i: int, gs: Seq<Group>|
            func::resolves_to(old(funcs)@, key.name@, key.version@, i) && group_views(gs)
                == config_groups(old(funcs)@[i]) && (users.grants(token@, gs, now) <==> r is Ok),
{
    function_access(funcs, users, token, key, now)?;
    registry_result(funcs.modify_config(key, config))
}

/// Sets or removes the alias of a function the holder of `token` may act on; a new alias
/// must be a valid key part.
pub fn set_alias(
    funcs: &mut FunctionManager,
    users: &UserManager,
    token: &str,
    key: Key<'_>,
    alias: Option<String>,
    now: i128,
) -> (r: Result<(), ApiError>)
    requires
        old(funcs).wf(),
        users.wf(),
    ensures
        final(funcs).wf(),
        r is Err ==> final(funcs)@ == old(funcs)@,
        (alias matches Some(a) && !valid_key_part(a@)) ==> r matches Err(ApiError::InvalidKeyFormat),
        (alias is None || valid_key_part(alias->0@)) && !func::occupied(
            old(funcs)@,
            key.name@,
            key.version@,
        ) ==> r matches Err(ApiError::NotFound),
        r is Ok ==> exists|i: int|
            func::resolves_to(old(funcs)@, key.name@, key.version@, i) && final(funcs)@
                == func::alias_update(old(funcs)@, i, alias),
        (alias is None || valid_key_part(alias->0@)) && func::occupied(
            old(funcs)@,
            key.name@,
            key.version@,
        ) ==> exists|i: int, gs: Seq<Group>|
            func::resolves_to(old(funcs)@, key.name@, key.version@, i) && group_views(gs)
                == config_groups(old(funcs)@[i]) && (users.grants(token@, gs, now) <==> r is Ok),
{
    if let Some(a) = &alias {
        validate_key_param(a.as_str())?;
    }
    function_access(funcs, users, token, key, now)?;
    registry_result(funcs.modify_alias(key, alias))
}

/// Removes a function the holder of `token` may act on, and returns its canonical key, whose
/// directory the caller deletes.
pub fn remove_function(
    funcs: &mut FunctionManager,
    users: &UserManager,
    token: &str,
    key: Key<'_>,
    now: i128,
) -> (r: Result<OwnedKey, ApiError>)
    requires
        old(funcs).wf(),
        users.wf(),
    ensures
        final(funcs).wf(),
        r is Err ==> final(funcs)@ == old(funcs)@,
        !func::occupied(old(funcs)@, key.name@, key.version@) ==> r matches Err(ApiError::NotFound),
        r is Ok ==> exists|i: int|
            func::resolves_to(old(funcs)@, key.name@, key.version@, i) && final(funcs)@ == old(funcs)@.remove(i),
        func::occupied(old(funcs)@, key.name@, key.version@) ==> exists|i: int, gs: Seq<Group>|
            func::resolves_to(old(funcs)@, key.name@, key.version@, i) && group_views(gs)
                == config_groups(old(funcs)@[i]) && (users.grants(token@, gs, now) <==> r is Ok),
{
    function_access(funcs, users, token, key, now)?;
    registry_result(funcs.remove_func(key))
}

/// Stops a running function the holder of `token` may act on, and hands back its handle for
/// the caller to kill.
pub fn stop_function<H: Handle>(
    funcs: &FunctionManager,
    users: &UserManager,
    deployments: &mut Deployments<H>,
    token: &str,
    key: Key<'_>,
    now: i128,
) -> (r: Result<H, ApiError>)
    requires
        funcs.wf(),
        users.wf(),
        old(deployments).wf(),
    ensures
        final(deployments).wf(),
        r is Err ==> final(deployments).running() == old(deployments).running()
            && final(deployments).routes() == old(deployments).routes(),
        !func::occupied(funcs@, key.name@, key.version@) ==> r matches Err(ApiError::NotFound),
        r is Ok ==> old(deployments).running().contains((key.name@, key.version@)) && final(deployments).running() == old(deployments).running().remove((key.name@, key.version@)) && final(deployments).routes() == old(deployments).routes().remove(func::host_prefix(key.name@, key.version@)),
        func::occupied(funcs@, key.name@, key.version@) ==> exists|i: int, gs: Seq<Group>|
            func::resolves_to(funcs@, key.name@, key.version@, i) && group_views(gs)
                == config_groups(funcs@[i]) && (users.grants(token@, gs, now) && old(deployments).running().contains((key.name@, key.version@)) <==> r is Ok),
{
    function_access(funcs, users, token, key, now)?;
    match deployments.stop(key) {
        Some(h) => Ok(h),
        None => Err(ApiError::NotFound),
    }
}

/// Records a started function; a second instance of a running key is refused and its fresh
/// handle handed back for the caller to kill.
pub fn record_start<H: Handle>(
    deployments: &mut Deployments<H>,
    key: Key<'_>,
    authority: String,
    handle: H,
) -> (r: Result<(), (ApiError, H)>)
    requires
        old(deployments).wf(),
    ensures
        final(deployments).wf(),
        r is Err <==> old(deployments).running().contains((key.name@, key.version@)),
        r matches Err((e, h)) ==> e is InstanceAlreadyRunning && h == handle && final(deployments).running() == old(deployments).running() && final(deployments).routes() == old(deployments).routes(),
        r is Ok ==> final(deployments).running() == old(deployments).running().insert(
            (key.name@, key.version@),
        ) && final(deployments).routes() == old(deployments).routes().insert(
            func::host_prefix(key.name@, key.version@),
            authority@,
        ),
{
    match deployments.start(key, authority, handle) {
        Ok(()) => Ok(()),
        Err(h) => Err((ApiError::InstanceAlreadyRunning, h)),
    }
}

/// Issues a token for the user a request names.
pub fn request_token(users: &mut UserManager, req: &RequestTokenRequest) -> (r: Result<
    String,
    ApiError,
>)
    requires
        old(users).wf(),
    ensures
        final(users).wf(),
        r is Ok <==> user::has_user(old(users).users_view(), req.user@),
        r is Err ==> r matches Err(ApiError::UserManager(user::ManagerError::NotFound)),
        r matches Ok(t) ==> t@.len() == 43 && (forall|i: int|
            0 <= i < t@.len() ==> user::url_safe_char(#[trigger] t@[i])) && user::indexed(final(users).index_view(), t@)
            && exists|now: i128|
            user::token_issued(*old(users), *final(users), req.user@, t, user::expiry_at(now, req.duration), now),
{
    match users.add_token(req.user.as_str(), req.duration) {
        Ok(t) => Ok(t),
        Err(e) => Err(ApiError::UserManager(e)),
    }
}

/// Removes the user named `name`.
pub fn remove_user(users: &mut UserManager, name: &str) -> (r: Result<(), ApiError>)
    requires
        old(users).wf(),
    ensures
        final(users).wf(),
        r is Ok <==> user::has_user(old(users).users_view(), name@),
        r is Err ==> r matches Err(ApiError::UserManager(user::ManagerError::NotFound)),
        r is Ok ==> !user::has_user(final(users).users_view(), name@) && final(users).dirty_flag()
            && (exists|i: int|
            user::user_at(old(users).users_view(), name@, i) && final(users).users_view() == old(users).users_view().remove(i))
            && final(users).index_view() == old(users).index_view().restrict(
            crate::index::keys_valued_otherwise(old(users).index_view(), name@),
        ),
        r is Err ==> final(users).users_view() == old(users).users_view() && final(users).index_view()
            == old(users).index_view() && final(users).dirty_flag() == old(users).dirty_flag(),
{
    match users.remove(name) {
        Ok(()) => Ok(()),
        Err(e) => Err(ApiError::UserManager(e)),
    }
}

/// Where a request goes, from its `Host` header: `None` when it is not for a function (it
/// goes on to the control API), else the address of the running function it is for.
pub fn proxy_target<H: Handle>(
    router: &crate::proxy::HostRouter,
    deployments: &Deployments<H>,
    host: Option<&str>,
) -> (r: Result<Option<String>, ApiError>)
    requires
        deployments.wf(),
    ensures
        host is None ==> r matches Err(ApiError::MissingHost),
        host matches Some(h) ==> match crate::proxy::route_of(router, h@) {
            None => r matches Ok(None),
            Some(p) => if deployments.routes().contains_key(p) {
                r matches Ok(Some(a)) && a@ == deployments.routes()[p]
            } else {
                r matches Err(ApiError::FunctionNotRunning)
            },
        },
{
    let h = match host {
        None => {
            return Err(ApiError::MissingHost);
        },
        Some(h) => h,
    };
    match router.route_prefix(h) {
        None => Ok(None),
        Some(p) => match deployments.route(p.as_str()) {
            Some(a) => Ok(Some(a)),
            None => Err(ApiError::FunctionNotRunning),
        },
    }
}

} // verus!
