//! Users, groups, permissions and bearer tokens.
use vstd::prelude::*;

use crate::func::{find_char, lemma_split_unique};
use crate::index::{index_entries, index_get, index_insert, index_new, index_remove_values, keys_valued_otherwise, Entries, StringIndex};

verus! {

/// Permission of a user.
#[derive(Debug, Clone, Copy, PartialEq, Eq, Structural)]
pub enum Permission {
    /// Read permission to function information.
    Read,
    /// Permission to upload new functions and modify information of existing functions.
    Write,
    /// Permission to execute functions.
    Execute,
    /// Permission to delete functions.
    Remove,
    /// Permission to manage accounts.
    Admin,
    /// Root privilege.
    Root,
}

/// The implication lattice: `a` grants everything `b` grants.
pub open spec fn implies(a: Permission, b: Permission) -> bool {
    a == b || a == Permission::Root || (a == Permission::Admin && b != Permission::Root) || (
    a == Permission::Write && b == Permission::Read) || (a == Permission::Remove && b
        == Permission::Read)
}

/// Lowercase name of a permission, as used in the text form of groups.
pub open spec fn permission_name(p: Permission) -> Seq<char> {
    match p {
        Permission::Read => "read"@,
        Permission::Write => "write"@,
        Permission::Execute => "execute"@,
        Permission::Remove => "remove"@,
        Permission::Admin => "admin"@,
        Permission::Root => "root"@,
    }
}

impl Permission {
    /// Checks whether this permission contains the other permission.
    pub fn contains(self, other: Self) -> (r: bool)
        ensures
            r == implies(self, other),
    {
        if matches!(self, Permission::Root) {
            return true;
        }
        match other {
            Permission::Read => matches!(
                self,
                Permission::Read | Permission::Write | Permission::Remove | Permission::Admin
            ),
            Permission::Write => matches!(self, Permission::Write | Permission::Admin),
            Permission::Remove => matches!(self, Permission::Remove | Permission::Admin),
            Permission::Admin => matches!(self, Permission::Admin),
            Permission::Execute => matches!(self, Permission::Execute | Permission::Admin),
            Permission::Root => false,
        }
    }

    /// Lowercase name of this permission.
    pub fn name(self) -> (r: &'static str)
        ensures
            r@ == permission_name(self),
    {
        match self {
            Permission::Read => "read",
            Permission::Write => "write",
            Permission::Execute => "execute",
            Permission::Remove => "remove",
            Permission::Admin => "admin",
            Permission::Root => "root",
        }
    }

    /// Looks a permission up by its lowercase name.
    pub fn from_name(s: &str) -> (r: Option<Permission>)
        ensures
            match r {
                Some(p) => permission_name(p) == s@,
                None => forall|p: Permission| permission_name(p) != s@,
            },
    {
        let owned = s.to_owned();
        let all = [
            Permission::Read,
            Permission::Write,
            Permission::Execute,
            Permission::Remove,
            Permission::Admin,
            Permission::Root,
        ];
        let mut i: usize = 0;
        while i < 6
            invariant
                owned@ == s@,
                all@ == seq![
                    Permission::Read,
                    Permission::Write,
                    Permission::Execute,
                    Permission::Remove,
                    Permission::Admin,
                    Permission::Root,
                ],
                i <= 6,
                forall|j: int| 0 <= j < i ==> permission_name(#[trigger] all@[j]) != s@,
            decreases 6 - i,
        {
            let p = all[i];
            if p.name().to_owned() == owned {
                return Some(p);
            }
            i = i + 1;
        }
        proof {
            assert forall|p: Permission| permission_name(p) != s@ by {
                match p {
                    Permission::Read => assert(all@[0] == p),
                    Permission::Write => assert(all@[1] == p),
                    Permission::Execute => assert(all@[2] == p),
                    Permission::Remove => assert(all@[3] == p),
                    Permission::Admin => assert(all@[4] == p),
                    Permission::Root => assert(all@[5] == p),
                }
            }
        }
        None
    }
}

/// Group of a user.
#[derive(Debug)]
pub enum Group {
    /// Group specifying a permission.
    Permission(Permission),
    /// Group specifying a specified user.
    Singular(String),
    /// Custom group category.
    Custom(String),
}

/// Mathematical value of a [`Group`].
pub enum GroupView {
    Permission(Permission),
    Singular(Seq<char>),
    Custom(Seq<char>),
}

impl View for Group {
    type V = GroupView;

    open spec fn view(&self) -> GroupView {
        match self {
            Group::Permission(p) => GroupView::Permission(*p),
            Group::Singular(s) => GroupView::Singular(s@),
            Group::Custom(s) => GroupView::Custom(s@),
        }
    }
}

/// Text form of a group: a key, a colon, then the payload.
pub open spec fn group_text(g: GroupView) -> Seq<char> {
    match g {
        GroupView::Permission(p) => "permission"@ + seq![':'] + permission_name(p),
        GroupView::Singular(u) => "singular"@ + seq![':'] + u,
        GroupView::Custom(c) => "custom"@ + seq![':'] + c,
    }
}

/// Error when parsing a [`Group`].
#[derive(Debug)]
pub enum ParseGroupError {
    InvalidKey(String),
    InvalidPermission(String),
    MissingKey,
}

impl PartialEq for Group {
    fn eq(&self, other: &Group) -> (r: bool) {
        match (self, other) {
            (Group::Permission(a), Group::Permission(b)) => *a == *b,
            (Group::Singular(a), Group::Singular(b)) => *a == *b,
            (Group::Custom(a), Group::Custom(b)) => *a == *b,
            _ => false,
        }
    }
}

impl vstd::std_specs::cmp::PartialEqSpecImpl for Group {
    open spec fn obeys_eq_spec() -> bool {
        true
    }

    open spec fn eq_spec(&self, other: &Group) -> bool {
        self@ == other@
    }
}

impl std::str::FromStr for Group {
    type Err = ParseGroupError;

    fn from_str(s: &str) -> Result<Group, ParseGroupError> {
        Group::parse(s)
    }
}

impl Group {
    /// Returns a group with the same value.
    pub fn copied(&self) -> (r: Group)
        ensures
            r@ == self@,
    {
        match self {
            Group::Permission(p) => Group::Permission(*p),
            Group::Singular(s) => Group::Singular(s.clone()),
            Group::Custom(s) => Group::Custom(s.clone()),
        }
    }

    /// Returns the text form of this group, such as `permission:read`.
    pub fn to_string(&self) -> (r: String)
        ensures
            r@ == group_text(self@),
    {
        proof {
            reveal_strlit(":");
        }
        match self {
            Group::Permission(p) => {
                let mut s = "permission".to_owned();
                s.append(":");
                s.append(p.name());
                s
            },
            Group::Singular(u) => {
                let mut s = "singular".to_owned();
                s.append(":");
                s.append(u.as_str());
                s
            },
            Group::Custom(c) => {
                let mut s = "custom".to_owned();
                s.append(":");
                s.append(c.as_str());
                s
            },
        }
    }

    /// Parses a group from its text form, splitting at the first colon.
    pub fn parse(s: &str) -> (r: Result<Group, ParseGroupError>)
        ensures
            match r {
                Ok(g) => group_text(g@) == s@,
                Err(ParseGroupError::MissingKey) => forall|g: GroupView| group_text(g) != s@,
                Err(ParseGroupError::InvalidPermission(v)) => forall|g: GroupView|
                    group_text(g) != s@,
                Err(ParseGroupError::InvalidKey(_)) => false,
            },
    {
        proof {
            reveal_strlit("permission");
            reveal_strlit("singular");
            reveal_strlit("custom");
        }
        match find_char(s, ':') {
            None => {
                proof {
                    assert forall|g: GroupView| group_text(g) != s@ by {
                        let k = group_key(g);
                        assert(group_text(g)[k.len() as int] == ':');
                    }
                }
                Err(ParseGroupError::MissingKey)
            },
            Some(i) => {
                let n = s.unicode_len();
                let key = s.substring_char(0, i).to_owned();
                let value = s.substring_char(i + 1, n);
                proof {
                    assert(s@ =~= key@ + seq![':'] + value@);
                    assert forall|g: GroupView| group_text(g) == s@ implies key@ == group_key(g)
                        && value@ == group_payload(g) by {
                        lemma_split_unique(group_key(g), group_payload(g), key@, value@, ':');
                    }
                }
                if key == "permission".to_owned() {
                    match Permission::from_name(value) {
                        Some(p) => {
                            proof {
                                assert(group_text(GroupView::Permission(p)) =~= s@);
                            }
                            Ok(Group::Permission(p))
                        },
                        None => Err(ParseGroupError::InvalidPermission(value.to_owned())),
                    }
                } else if key == "custom".to_owned() {
                    proof {
                        assert(group_text(GroupView::Custom(value@)) =~= s@);
                    }
                    Ok(Group::Custom(value.to_owned()))
                } else if key == "singular".to_owned() {
                    proof {
                        assert(group_text(GroupView::Singular(value@)) =~= s@);
                    }
                    Ok(Group::Singular(value.to_owned()))
                } else {
                    Err(ParseGroupError::MissingKey)
                }
            },
        }
    }
}

/// Key part of the text form of a group.
pub open spec fn group_key(g: GroupView) -> Seq<char> {
    match g {
        GroupView::Permission(_) => "permission"@,
        GroupView::Singular(_) => "singular"@,
        GroupView::Custom(_) => "custom"@,
    }
}

/// Payload part of the text form of a group.
pub open spec fn group_payload(g: GroupView) -> Seq<char> {
    match g {
        GroupView::Permission(p) => permission_name(p),
        GroupView::Singular(u) => u,
        GroupView::Custom(c) => c,
    }
}

/// Permission implication is reflexive, `Root` implies every permission, and two distinct
/// permissions other than `Root` never imply each other.
pub proof fn permission_lattice(p: Permission, q: Permission)
    ensures
        implies(p, p),
        implies(Permission::Root, p),
        p != q && p != Permission::Root && q != Permission::Root ==> !(implies(p, q) && implies(
            q,
            p,
        )),
{
}

/// The text form of a group determines the group, so parsing it gives the group back.
pub proof fn group_text_round_trip(g: GroupView, parsed: GroupView)
    requires
        group_text(parsed) == group_text(g),
    ensures
        parsed == g,
{
    reveal_strlit("permission");
    reveal_strlit("singular");
    reveal_strlit("custom");
    reveal_strlit("read");
    reveal_strlit("write");
    reveal_strlit("execute");
    reveal_strlit("remove");
    reveal_strlit("admin");
    reveal_strlit("root");
    assert(!group_key(g).contains(':'));
    assert(!group_key(parsed).contains(':'));
    lemma_split_unique(group_key(parsed), group_payload(parsed), group_key(g), group_payload(g), ':');
    match (g, parsed) {
        (GroupView::Permission(a), GroupView::Permission(b)) => {
            if a != b {
                assert(permission_name(a) != permission_name(b)) by {
                    let x = permission_name(a);
                    let y = permission_name(b);
                    if x.len() == y.len() {
                        assert(x[0] != y[0] || x[1] != y[1] || x[2] != y[2]);
                    }
                }
            }
        },
        (GroupView::Singular(_), GroupView::Singular(_)) => {},
        (GroupView::Custom(_), GroupView::Custom(_)) => {},
        _ => {
            let x = group_key(g);
            let y = group_key(parsed);
            assert(x.len() != y.len() || x[0] != y[0]);
        },
    }
}

/// Name under which the session's root account is known.
pub open spec fn root_name() -> Seq<char> {
    "root"@
}

/// User of the platform.
#[derive(Debug)]
pub struct User {
    /// Name of the user. This should be immutable.
    pub name: String,
    /// Groups of the user, each once. Use [`Self::is_in`] to check membership.
    pub groups: Vec<Group>,
    /// Tokens of the user, each with the instant (nanoseconds since the Unix epoch) it
    /// expires at.
    pub tokens: Vec<(String, i128)>,
}

/// Some group of `gs` has the value `g`.
pub open spec fn has_group(gs: Seq<Group>, g: GroupView) -> bool {
    exists|i: int| 0 <= i < gs.len() && (#[trigger] gs[i])@ == g
}

/// No two groups of `gs` have the same value.
pub open spec fn distinct_groups(gs: Seq<Group>) -> bool {
    forall|i: int, j: int|
        #![trigger gs[i], gs[j]]
        0 <= i < gs.len() && 0 <= j < gs.len() && i != j ==> gs[i]@ != gs[j]@
}

/// Membership: a singular group holds exactly the user of that name; any other group holds
/// the users that list it.
pub open spec fn member(name: Seq<char>, groups: Seq<Group>, g: GroupView) -> bool {
    match g {
        GroupView::Singular(n) => name == n,
        _ => has_group(groups, g),
    }
}

/// `t` is among `tokens` with an expiry later than `now`.
pub open spec fn token_live(tokens: Seq<(String, i128)>, t: Seq<char>, now: i128) -> bool {
    exists|i: int| 0 <= i < tokens.len() && (#[trigger] tokens[i]).0@ == t && now < tokens[i].1
}

/// No two token entries hold the same token.
pub open spec fn distinct_tokens(ts: Seq<(String, i128)>) -> bool {
    forall|i: int, j: int|
        #![trigger ts[i], ts[j]]
        0 <= i < ts.len() && 0 <= j < ts.len() && i != j ==> ts[i].0@ != ts[j].0@
}

/// Token entries that survive pruning at `now` before `t` is added.
pub open spec fn kept_token(now: i128, t: Seq<char>) -> spec_fn((String, i128)) -> bool {
    |e: (String, i128)| now < e.1 && e.0@ != t
}

/// Whether `v` holds a group of value `g`.
pub fn contains_group(v: &Vec<Group>, g: &Group) -> (r: bool)
    ensures
        r == has_group(v@, g@),
{
    let mut i: usize = 0;
    while i < v.len()
        invariant
            i <= v@.len(),
            forall|j: int| 0 <= j < i ==> (#[trigger] v@[j])@ != g@,
        decreases v@.len() - i,
    {
        if v[i] == *g {
            return true;
        }
        i = i + 1;
    }
    false
}

/// Copies a list of groups.
pub fn copy_groups(v: &Vec<Group>) -> (r: Vec<Group>)
    ensures
        r@.len() == v@.len(),
        forall|i: int| 0 <= i < v@.len() ==> (#[trigger] r@[i])@ == v@[i]@,
{
    let mut out: Vec<Group> = Vec::new();
    let mut i: usize = 0;
    while i < v.len()
        invariant
            i <= v@.len(),
            out@.len() == i,
            forall|j: int| 0 <= j < i ==> (#[trigger] out@[j])@ == v@[j]@,
        decreases v@.len() - i,
    {
        out.push(v[i].copied());
        i = i + 1;
    }
    out
}

/// Keeps each group of `groups` once, in order of first appearance.
pub fn dedup_groups(groups: Vec<Group>) -> (r: Vec<Group>)
    ensures
        distinct_groups(r@),
        forall|g: GroupView| has_group(r@, g) <==> has_group(groups@, g),
{
    let mut set: Vec<Group> = Vec::new();
    let mut rest = groups;
    let ghost input = rest@;
    let mut done: usize = 0;
    let total = rest.len();
    while rest.len() > 0
        invariant
            total == input.len(),
            done + rest@.len() == input.len(),
            rest@ == input.skip(done as int),
            distinct_groups(set@),
            forall|g: GroupView| has_group(set@, g) <==> has_group(input.take(done as int), g),
        decreases rest@.len(),
    {
        let g = rest.remove(0);
        let ghost gv = g@;
        let ghost set_before = set@;
        assert(g == input[done as int]);
        proof {
            assert(input.take(done as int + 1) =~= input.take(done as int).push(g));
            assert forall|h: GroupView| has_group(input.take(done as int + 1), h) <==> (has_group(
                input.take(done as int),
                h,
            ) || g@ == h) by {
                let t = input.take(done as int + 1);
                if has_group(t, h) && g@ != h {
                    let w = choose|w: int| 0 <= w < t.len() && (#[trigger] t[w])@ == h;
                    assert(input.take(done as int)[w] == t[w]);
                }
                if g@ == h {
                    assert(t[done as int] == g);
                }
                if has_group(input.take(done as int), h) {
                    let w = choose|w: int|
                        0 <= w < done && (#[trigger] input.take(done as int)[w])@ == h;
                    assert(t[w] == input.take(done as int)[w]);
                }
            }
        }
        let present = contains_group(&set, &g);
        if !present {
            let ghost before = set@;
            set.push(g);
            proof {
                assert forall|h: GroupView| has_group(set@, h) <==> (has_group(before, h) || g@
                    == h) by {
                    if has_group(set@, h) && g@ != h {
                        let w = choose|w: int| 0 <= w < set@.len() && (#[trigger] set@[w])@ == h;
                        assert(before[w] == set@[w]);
                    }
                    if g@ == h {
                        assert(set@[before.len() as int]@ == gv);
                    }
                    if has_group(before, h) {
                        let w = choose|w: int| 0 <= w < before.len() && (#[trigger] before[w])@ == h;
                        assert(set@[w] == before[w]);
                    }
                }
            }
        }
        proof {
            assert(rest@ =~= input.skip(done as int + 1));
            assert forall|h: GroupView| has_group(set@, h) <==> has_group(
                input.take(done as int + 1),
                h,
            ) by {
                assert(has_group(set_before, h) <==> has_group(input.take(done as int), h));
                assert(has_group(input.take(done as int + 1), h) <==> (has_group(
                    input.take(done as int),
                    h,
                ) || gv == h));
                assert(has_group(set@, h) <==> (has_group(set_before, h) || gv == h));
            }
        }
        done = done + 1;
    }
    assert(input.take(done as int) =~= input);
    set
}

impl User {
    /// Token entries of this user: token, and the instant (in nanoseconds since the Unix
    /// epoch) it expires at.
    pub open spec fn token_entries(&self) -> Seq<(String, i128)> {
        self.tokens@
    }

    /// Creates a new user with the given groups, each kept once, and no token.
    pub fn new(name: String, groups: Vec<Group>) -> (r: Self)
        ensures
            r.name@ == name@,
            distinct_groups(r.groups@),
            forall|g: GroupView| has_group(r.groups@, g) <==> has_group(groups@, g),
            r.token_entries().len() == 0,
    {
        User { name, groups: dedup_groups(groups), tokens: Vec::new() }
    }

    /// Rebuilds a user read back from storage, as it was stored.
    pub fn from_parts(name: String, groups: Vec<Group>, tokens: Vec<(String, i128)>) -> (r: Self)
        ensures
            r.name == name,
            r.groups == groups,
            r.token_entries() == tokens@,
    {
        User { name, groups, tokens }
    }

    /// Token entries of this user, for storage.
    pub fn tokens(&self) -> (r: &Vec<(String, i128)>)
        ensures
            r@ == self.token_entries(),
    {
        &self.tokens
    }

    /// Checks whether this user is in the specified group.
    pub fn is_in(&self, group: &Group) -> (r: bool)
        ensures
            r == member(self.name@, self.groups@, group@),
    {
        match group {
            Group::Singular(n) => self.name == *n,
            _ => contains_group(&self.groups, group),
        }
    }

    /// Checks whether this user holds `token` and it has not expired at `now`.
    pub fn is_token_valid(&self, token: &str, now: i128) -> (r: bool)
        ensures
            r == token_live(self.token_entries(), token@, now),
    {
        let t = token.to_owned();
        let mut i: usize = 0;
        while i < self.tokens.len()
            invariant
                t@ == token@,
                i <= self.tokens@.len(),
                forall|j: int|
                    0 <= j < i ==> !((#[trigger] self.tokens@[j]).0@ == token@ && now
                        < self.tokens@[j].1),
            decreases self.tokens@.len() - i,
        {
            if self.tokens[i].0 == t && now < self.tokens[i].1 {
                return true;
            }
            i = i + 1;
        }
        false
    }

    /// Adds `token`, expiring at `expiry`, after dropping the entries expired at `now` and any
    /// earlier entry of the same token.
    pub fn add_token(&mut self, token: String, expiry: i128, now: i128)
        ensures
            final(self).name == old(self).name,
            final(self).groups == old(self).groups,
            final(self).token_entries() == old(self).token_entries().filter(
                kept_token(now, token@),
            ).push((token, expiry)),
            distinct_tokens(old(self).token_entries()) ==> distinct_tokens(final(self).token_entries()),
    {
        let ghost old_tokens = self.tokens@;
        let ghost pred = kept_token(now, token@);
        let mut kept: Vec<(String, i128)> = Vec::new();
        let mut done: usize = 0;
        while done < self.tokens.len()
            invariant
                self.tokens@ == old_tokens,
                done <= old_tokens.len(),
                kept@ == old_tokens.take(done as int).filter(pred),
                pred == kept_token(now, token@),
                forall|p: int| 0 <= p < kept@.len() ==> (#[trigger] kept@[p]).0@ != token@,
                forall|p: int|
                    0 <= p < kept@.len() ==> exists|c: int|
                        0 <= c < done && #[trigger] kept@[p] == old_tokens[c],
                distinct_tokens(old_tokens) ==> distinct_tokens(kept@),
            decreases old_tokens.len() - done,
        {
            let e = &self.tokens[done];
            proof {
                reveal(Seq::filter);
                assert(old_tokens.take(done as int + 1).drop_last() =~= old_tokens.take(done as int));
            }
            if now < e.1 && e.0 != token {
                let ghost before = kept@;
                kept.push((e.0.clone(), e.1));
                proof {
                    assert(kept@[before.len() as int] == old_tokens[done as int]);
                    assert forall|p: int| 0 <= p < kept@.len() implies exists|c: int|
                        0 <= c < done + 1 && #[trigger] kept@[p] == old_tokens[c] by {
                        if p < before.len() {
                            assert(kept@[p] == before[p]);
                        } else {
                            assert(kept@[p] == old_tokens[done as int]);
                        }
                    }
                    if distinct_tokens(old_tokens) {
                        assert forall|p: int, q: int|
                            #![trigger kept@[p], kept@[q]]
                            0 <= p < kept@.len() && 0 <= q < kept@.len() && p != q implies kept@[p].0@
                                != kept@[q].0@ by {
                            let m = before.len() as int;
                            if p == m && q < m {
                                assert(kept@[q] == before[q]);
                                let c = choose|c: int| 0 <= c < done && #[trigger] before[q] == old_tokens[c];
                                assert(old_tokens[c].0@ != old_tokens[done as int].0@);
                            } else if q == m && p < m {
                                assert(kept@[p] == before[p]);
                                let c = choose|c: int| 0 <= c < done && #[trigger] before[p] == old_tokens[c];
                                assert(old_tokens[c].0@ != old_tokens[done as int].0@);
                            } else if p < m && q < m {
                                assert(kept@[p] == before[p] && kept@[q] == before[q]);
                            }
                        }
                    }
                }
            }
            done = done + 1;
        }
        assert(old_tokens.take(done as int) =~= old_tokens);
        let ghost before = kept@;
        kept.push((token, expiry));
        proof {
            if distinct_tokens(old_tokens) {
                assert forall|p: int, q: int|
                    #![trigger kept@[p], kept@[q]]
                    0 <= p < kept@.len() && 0 <= q < kept@.len() && p != q implies kept@[p].0@
                        != kept@[q].0@ by {
                    let m = before.len() as int;
                    if p < m {
                        assert(kept@[p] == before[p]);
                    }
                    if q < m {
                        assert(kept@[q] == before[q]);
                    }
                }
            }
        }
        self.tokens = kept;
    }

    /// Clears all tokens of this user.
    pub fn clear_tokens(&mut self)
        ensures
            final(self).name == old(self).name,
            final(self).groups == old(self).groups,
            final(self).token_entries().len() == 0,
    {
        self.tokens = Vec::new();
    }
}

/// The user at index `i` of `users` is named `name`.
pub open spec fn user_at(users: Seq<User>, name: Seq<char>, i: int) -> bool {
    0 <= i < users.len() && users[i].name@ == name
}

/// Some user of `users` is named `name`.
pub open spec fn has_user(users: Seq<User>, name: Seq<char>) -> bool {
    exists|i: int| user_at(users, name, i)
}

/// The token index maps `t` to the user named `u`.
pub open spec fn registered(index: Entries, t: Seq<char>, u: Seq<char>) -> bool {
    index.contains_key(t) && index[t] == u
}

/// The token index holds `t`.
pub open spec fn indexed(index: Entries, t: Seq<char>) -> bool {
    index.contains_key(t)
}

/// Invariant of a user manager: user names are unique, and every indexed token belongs to an
/// existing user.
pub open spec fn users_wf(users: Seq<User>, index: Entries) -> bool {
    &&& forall|i: int, j: int|
        #![trigger users[i], users[j]]
        0 <= i < users.len() && 0 <= j < users.len() && i != j ==> users[i].name@
            != users[j].name@
    &&& forall|t: Seq<char>| #[trigger] index.contains_key(t) ==> has_user(users, index[t])
}

/// `u` is in every group of `gs`.
pub open spec fn in_all(u: User, gs: Seq<Group>) -> bool {
    forall|j: int| 0 <= j < gs.len() ==> member(u.name@, u.groups@, (#[trigger] gs[j])@)
}

/// Authorization: `t` is the root token, or it is indexed for a user who holds it unexpired
/// at `now` and is in every group of `gs`.
pub open spec fn grants(
    users: Seq<User>,
    index: Entries,
    root: Seq<char>,
    t: Seq<char>,
    gs: Seq<Group>,
    now: i128,
) -> bool {
    t == root || exists|k: int|
        0 <= k < users.len() && registered(index, t, (#[trigger] users[k]).name@) && token_live(
            users[k].tokens@,
            t,
            now,
        ) && in_all(users[k], gs)
}

/// `new` has the length of `old` and the same users but at index `i`.
pub open spec fn others_kept(old: Seq<User>, new: Seq<User>, i: int) -> bool {
    new.len() == old.len() && forall|j: int| 0 <= j < old.len() && j != i ==> new[j] == old[j]
}

/// `after` is `before` with token `t` issued to the user named `name`, expiring at `expiry`:
/// that user's entries expired at `now` (and any earlier entry of `t`) are dropped, and `t` is
/// indexed for the user unless it already was.
pub open spec fn token_issued(
    before: UserManager,
    after: UserManager,
    name: Seq<char>,
    t: String,
    expiry: i128,
    now: i128,
) -> bool {
    exists|i: int|
        {
            &&& user_at(before.users_view(), name, i)
            &&& after.index_view() == (if indexed(before.index_view(), t@) {
                before.index_view()
            } else {
                before.index_view().insert(t@, before.users_view()[i].name@)
            })
            &&& others_kept(before.users_view(), after.users_view(), i)
            &&& after.users_view()[i].name == before.users_view()[i].name
            &&& after.users_view()[i].groups == before.users_view()[i].groups
            &&& after.users_view()[i].tokens@ == before.users_view()[i].tokens@.filter(
                kept_token(now, t@),
            ).push((t, expiry))
        }
}

/// `after` is `before` with the groups of the user named `name` replaced by `groups`, each
/// kept once; nothing else changes but the dirty flag, which is set.
pub open spec fn groups_replaced(
    before: UserManager,
    after: UserManager,
    name: Seq<char>,
    groups: Seq<Group>,
) -> bool {
    &&& after.dirty_flag()
    &&& after.index_view() == before.index_view()
    &&& exists|i: int|
        {
            &&& user_at(before.users_view(), name, i)
            &&& others_kept(before.users_view(), after.users_view(), i)
            &&& after.users_view()[i].name == before.users_view()[i].name
            &&& after.users_view()[i].tokens == before.users_view()[i].tokens
            &&& distinct_groups(after.users_view()[i].groups@)
            &&& forall|g: GroupView|
                has_group(after.users_view()[i].groups@, g) <==> has_group(groups, g)
        }
}

/// Errors that may occur when working with a [`UserManager`].
#[derive(Debug)]
pub enum ManagerError {
    Io(String),
    ParseJson(String),
    Initialized,
    Duplicated,
    NotFound,
}

/// Manager of users and their tokens.
pub struct UserManager {
    users: Vec<User>,
    tokens: StringIndex,
    root_dir: String,
    root_token: String,
    dirty: bool,
}

impl UserManager {
    /// The users, each once.
    pub closed spec fn users_view(&self) -> Seq<User> {
        self.users@
    }

    /// Token index: token to the name of the user it was issued to.
    pub closed spec fn index_view(&self) -> Entries {
        index_entries(self.tokens)
    }

    /// Root token of this session.
    pub closed spec fn root_token_view(&self) -> Seq<char> {
        self.root_token@
    }

    /// Whether there are changes not yet written to the filesystem.
    pub closed spec fn dirty_flag(&self) -> bool {
        self.dirty
    }

    /// Root directory of the stored users.
    pub closed spec fn root(&self) -> Seq<char> {
        self.root_dir@
    }

    /// The manager invariant holds.
    pub open spec fn wf(&self) -> bool {
        users_wf(self.users_view(), self.index_view())
    }

    /// Authorization of `t` for groups `gs` at `now`.
    pub open spec fn grants(&self, t: Seq<char>, gs: Seq<Group>, now: i128) -> bool {
        grants(self.users_view(), self.index_view(), self.root_token_view(), t, gs, now)
    }

    /// Creates an empty user manager with the given root token.
    pub fn with_root_token(root_token: String, root_dir: String) -> (r: Self)
        ensures
            r.wf(),
            r.users_view().len() == 0,
            r.index_view() == Entries::empty(),
            r.root_token_view() == root_token@,
            r.root() == root_dir@,
            !r.dirty_flag(),
    {
        UserManager { users: Vec::new(), tokens: index_new(), root_dir, root_token, dirty: false }
    }

    /// Checks whether the manager has changes not yet written to the filesystem.
    pub fn is_dirty(&self) -> (r: bool)
        ensures
            r == self.dirty_flag(),
    {
        self.dirty
    }

    /// Whether the user manager is empty.
    pub fn is_empty(&self) -> (r: bool)
        ensures
            r == (self.users_view().len() == 0),
    {
        self.users.len() == 0
    }

    /// All users, for storage.
    pub fn users(&self) -> (r: &Vec<User>)
        ensures
            r@ == self.users_view(),
    {
        &self.users
    }

    /// Root token of this session.
    pub fn root_token(&self) -> (r: &String)
        ensures
            r@ == self.root_token_view(),
    {
        &self.root_token
    }

    /// Records that all users have been written to the filesystem.
    pub fn mark_written(&mut self)
        ensures
            final(self).users_view() == old(self).users_view(),
            final(self).index_view() == old(self).index_view(),
            final(self).root_token_view() == old(self).root_token_view(),
            final(self).root() == old(self).root(),
            !final(self).dirty_flag(),
    {
        self.dirty = false;
    }

    /// Index of the user named `name`.
    fn find_user(&self, name: &str) -> (r: Option<usize>)
        ensures
            match r {
                Some(i) => user_at(self.users_view(), name@, i as int),
                None => !has_user(self.users_view(), name@),
            },
    {
        let n = name.to_owned();
        let mut i: usize = 0;
        while i < self.users.len()
            invariant
                n@ == name@,
                i <= self.users@.len(),
                forall|j: int| 0 <= j < i ==> !user_at(self.users@, name@, j),
            decreases self.users@.len() - i,
        {
            if self.users[i].name == n {
                return Some(i);
            }
            i = i + 1;
        }
        None
    }

    /// Name of the user `token` is indexed for.
    fn token_owner(&self, token: &str) -> (r: Option<String>)
        ensures
            match r {
                Some(u) => registered(self.index_view(), token@, u@),
                None => !indexed(self.index_view(), token@),
            },
    {
        index_get(&self.tokens, token)
    }

    /// Whether `name` is the reserved name of the root account.
    fn is_root_name(name: &str) -> (r: bool)
        ensures
            r == (name@ == root_name()),
    {
        name.to_owned() == "root".to_owned()
    }

    /// Adds a user to the manager.
    pub fn add(&mut self, user: User) -> (r: Result<(), ManagerError>)
        requires
            old(self).wf(),
        ensures
            final(self).wf(),
            final(self).index_view() == old(self).index_view(),
            final(self).root_token_view() == old(self).root_token_view(),
            final(self).root() == old(self).root(),
            r is Err <==> (user.name@ == root_name() || has_user(
                old(self).users_view(),
                user.name@,
            )),
            r is Err ==> (r matches Err(ManagerError::Duplicated)) && final(self).users_view()
                == old(self).users_view() && final(self).dirty_flag() == old(self).dirty_flag(),
            r is Ok ==> final(self).users_view() == old(self).users_view().push(user)
                && final(self).dirty_flag(),
    {
        if Self::is_root_name(user.name.as_str()) || self.find_user(user.name.as_str()).is_some() {
            return Err(ManagerError::Duplicated);
        }
        let ghost u = user;
        self.users.push(user);
        self.dirty = true;
        proof {
            let us = self.users@;
            let idx = self.index_view();
            assert forall|t: Seq<char>| #[trigger] idx.contains_key(t) implies has_user(us, idx[t]) by {
                let w = choose|w: int| user_at(old(self).users@, idx[t], w);
                assert(user_at(us, idx[t], w));
            }
            assert forall|i: int, j: int|
                #![trigger us[i], us[j]]
                0 <= i < us.len() && 0 <= j < us.len() && i != j implies us[i].name@
                    != us[j].name@ by {
                let n = old(self).users@.len() as int;
                if i == n {
                    assert(!user_at(old(self).users@, u.name@, j));
                } else if j == n {
                    assert(!user_at(old(self).users@, u.name@, i));
                }
            }
        }
        Ok(())
    }

    /// Removes a user from this manager, together with the tokens indexed for it.
    pub fn remove(&mut self, name: &str) -> (r: Result<(), ManagerError>)
        requires
            old(self).wf(),
        ensures
            final(self).wf(),
            final(self).root_token_view() == old(self).root_token_view(),
            final(self).root() == old(self).root(),
            r is Ok <==> has_user(old(self).users_view(), name@),
            r is Err ==> (r matches Err(ManagerError::NotFound)) && final(self).users_view()
                == old(self).users_view() && final(self).index_view() == old(self).index_view()
                && final(self).dirty_flag() == old(self).dirty_flag(),
            r is Ok ==> final(self).dirty_flag() && !has_user(final(self).users_view(), name@)
                && (exists|i: int|
                user_at(old(self).users_view(), name@, i) && final(self).users_view() == old(self).users_view().remove(i)) && final(self).index_view() == old(self).index_view().restrict(keys_valued_otherwise(old(self).index_view(), name@)),
    {
        let i = match self.find_user(name) {
            None => {
                return Err(ManagerError::NotFound);
            },
            Some(i) => i,
        };
        self.users.remove(i);
        index_remove_values(&mut self.tokens, name);
        self.dirty = true;
        proof {
            let us = self.users@;
            let ous = old(self).users@;
            let idx = self.index_view();
            let oidx = old(self).index_view();
            assert forall|p: int, q: int|
                #![trigger us[p], us[q]]
                0 <= p < us.len() && 0 <= q < us.len() && p != q implies us[p].name@
                    != us[q].name@ by {
                let pp = if p < i { p } else { p + 1 };
                let qq = if q < i { q } else { q + 1 };
                assert(us[p] == ous[pp] && us[q] == ous[qq]);
            }
            assert(!has_user(us, name@)) by {
                if has_user(us, name@) {
                    let w = choose|w: int| user_at(us, name@, w);
                    let ww = if w < i { w } else { w + 1 };
                    assert(us[w] == ous[ww]);
                }
            }
            assert forall|t: Seq<char>| #[trigger] idx.contains_key(t) implies has_user(us, idx[t]) by {
                assert(oidx.contains_key(t) && oidx[t] != name@ && idx[t] == oidx[t]);
                let w = choose|w: int| user_at(ous, oidx[t], w);
                if w < i {
                    assert(user_at(us, idx[t], w));
                } else if w > i {
                    assert(user_at(us, idx[t], w - 1));
                }
            }
        }
        Ok(())
    }

    /// Checks that `token` is the root token, or is indexed for a user who holds it unexpired
    /// at `now` and is in every group of `groups`.
    pub fn auth_at(&self, token: &str, groups: &Vec<Group>, now: i128) -> (r: bool)
        requires
            self.wf(),
        ensures
            r == self.grants(token@, groups@, now),
    {
        if token.to_owned() == self.root_token {
            return true;
        }
        let owner = match self.token_owner(token) {
            None => {
                return false;
            },
            Some(o) => o,
        };
        let k = match self.find_user(owner.as_str()) {
            None => {
                return false;
            },
            Some(k) => k,
        };
        let user = &self.users[k];
        proof {
            assert forall|k2: int|
                0 <= k2 < self.users@.len() && registered(
                    self.index_view(),
                    token@,
                    (#[trigger] self.users@[k2]).name@,
                ) implies k2 == k by {
                if k2 != k {
                    assert(self.users@[k2].name@ != self.users@[k as int].name@);
                }
            }
        }
        if !user.is_token_valid(token, now) {
            return false;
        }
        let mut j: usize = 0;
        while j < groups.len()
            invariant
                j <= groups@.len(),
                k < self.users@.len(),
                *user == self.users@[k as int],
                token@ != self.root_token@,
                token_live(user.tokens@, token@, now),
                registered(self.index_view(), token@, user.name@),
                forall|k2: int|
                    0 <= k2 < self.users@.len() && registered(
                        self.index_view(),
                        token@,
                        (#[trigger] self.users@[k2]).name@,
                    ) ==> k2 == k,
                forall|q: int|
                    0 <= q < j ==> member(user.name@, user.groups@, (#[trigger] groups@[q])@),
            decreases groups@.len() - j,
        {
            if !user.is_in(&groups[j]) {
                proof {
                    assert(!member(user.name@, user.groups@, groups@[j as int]@));
                    assert(!in_all(self.users@[k as int], groups@));
                }
                return false;
            }
            j = j + 1;
        }
        true
    }

    /// Returns the name of the user holding the given token; `root` for the root token.
    pub fn user_name(&self, token: &str) -> (r: Option<String>)
        requires
            self.wf(),
        ensures
            token@ == self.root_token_view() ==> (r matches Some(n) && n@ == root_name()),
            token@ != self.root_token_view() ==> match r {
                Some(n) => registered(self.index_view(), token@, n@),
                None => !indexed(self.index_view(), token@),
            },
    {
        if token.to_owned() == self.root_token {
            return Some("root".to_owned());
        }
        self.token_owner(token)
    }

    /// Looks a user up by name; `None` for the root account, which has no stored user.
    pub fn peek(&self, name: &str) -> (r: Result<Option<&User>, ManagerError>)
        ensures
            name@ == root_name() ==> r matches Ok(None),
            name@ != root_name() ==> match r {
                Ok(Some(u)) => exists|i: int|
                    user_at(self.users_view(), name@, i) && *u == self.users_view()[i],
                Ok(None) => false,
                Err(e) => e matches ManagerError::NotFound && !has_user(self.users_view(), name@),
            },
    {
        if Self::is_root_name(name) {
            return Ok(None);
        }
        match self.find_user(name) {
            Some(i) => Ok(Some(&self.users[i])),
            None => Err(ManagerError::NotFound),
        }
    }

    /// Looks up the user holding `token`; `None` for the root token or a token of the root
    /// account.
    pub fn peek_from_token(&self, token: &str) -> (r: Result<Option<&User>, ManagerError>)
        requires
            self.wf(),
        ensures
            token@ == self.root_token_view() ==> r matches Ok(None),
            token@ != self.root_token_view() ==> match r {
                Ok(Some(u)) => u.name@ != root_name() && registered(self.index_view(), token@, u.name@) && exists|i: int|
                    0 <= i < self.users_view().len() && *u == self.users_view()[i],
                Ok(None) => registered(self.index_view(), token@, root_name()),
                Err(e) => e matches ManagerError::NotFound && !indexed(self.index_view(), token@),
            },
    {
        if token.to_owned() == self.root_token {
            return Ok(None);
        }
        match self.token_owner(token) {
            None => Err(ManagerError::NotFound),
            Some(name) => {
                if Self::is_root_name(name.as_str()) {
                    return Ok(None);
                }
                match self.find_user(name.as_str()) {
                    Some(k) => Ok(Some(&self.users[k])),
                    None => Err(ManagerError::NotFound),
                }
            },
        }
    }

    /// Replaces the groups of a user, keeping each once; `None` for the root account, whose
    /// groups cannot change.
    pub fn set_groups(&mut self, name: &str, groups: Vec<Group>) -> (r: Result<
        Option<()>,
        ManagerError,
    >)
        requires
            old(self).wf(),
        ensures
            final(self).wf(),
            final(self).index_view() == old(self).index_view(),
            final(self).root_token_view() == old(self).root_token_view(),
            final(self).root() == old(self).root(),
            name@ == root_name() ==> (r matches Ok(None)) && final(self).users_view() == old(self).users_view() && final(self).dirty_flag() == old(self).dirty_flag(),
            name@ != root_name() ==> (r is Err <==> !has_user(old(self).users_view(), name@)),
            name@ != root_name() && r is Err ==> (r matches Err(ManagerError::NotFound))
                && final(self).users_view() == old(self).users_view() && final(self).dirty_flag()
                == old(self).dirty_flag(),
            name@ != root_name() && r is Ok ==> (r matches Ok(Some(_))) && groups_replaced(
                *old(self),
                *final(self),
                name@,
                groups@,
            ),
    {
        if Self::is_root_name(name) {
            return Ok(None);
        }
        let i = match self.find_user(name) {
            None => {
                return Err(ManagerError::NotFound);
            },
            Some(i) => i,
        };
        let mut u = self.users.remove(i);
        u.groups = dedup_groups(groups);
        self.users.insert(i, u);
        self.dirty = true;
        proof {
            let us = self.users@;
            let ous = old(self).users@;
            let idx = self.index_view();
            assert forall|p: int| 0 <= p < us.len() && p != i implies us[p] == ous[p] by {}
            assert forall|p: int, q: int|
                #![trigger us[p], us[q]]
                0 <= p < us.len() && 0 <= q < us.len() && p != q implies us[p].name@
                    != us[q].name@ by {
                assert(us[p].name == ous[p].name && us[q].name == ous[q].name);
            }
            assert forall|t: Seq<char>| #[trigger] idx.contains_key(t) implies has_user(us, idx[t]) by {
                let w = choose|w: int| user_at(ous, idx[t], w);
                assert(user_at(us, idx[t], w));
            }
        }
        Ok(Some(()))
    }

    /// Issues `token` to the user named `name`, expiring at `expiry`; the user's entries
    /// expired at `now` are dropped. The token is indexed unless it already is.
    pub fn add_token_at(&mut self, name: &str, token: String, expiry: i128, now: i128) -> (r:
        Result<String, ManagerError>)
        requires
            old(self).wf(),
        ensures
            final(self).wf(),
            final(self).root_token_view() == old(self).root_token_view(),
            final(self).root() == old(self).root(),
            r is Ok <==> has_user(old(self).users_view(), name@),
            r is Err ==> (r matches Err(ManagerError::NotFound)) && final(self).users_view()
                == old(self).users_view() && final(self).index_view() == old(self).index_view()
                && final(self).dirty_flag() == old(self).dirty_flag(),
            r matches Ok(t) ==> {
                &&& t@ == token@
                &&& final(self).dirty_flag()
                &&& token_issued(*old(self), *final(self), name@, t, expiry, now)
            },
    {
        let i = match self.find_user(name) {
            None => {
                return Err(ManagerError::NotFound);
            },
            Some(i) => i,
        };
        let mut u = self.users.remove(i);
        let owner = u.name.clone();
        u.add_token(token.clone(), expiry, now);
        self.users.insert(i, u);
        if self.token_owner(token.as_str()).is_none() {
            index_insert(&mut self.tokens, token.clone(), owner);
        }
        self.dirty = true;
        proof {
            let us = self.users@;
            let ous = old(self).users@;
            let idx = self.index_view();
            let oidx = old(self).index_view();
            assert forall|p: int| 0 <= p < us.len() && p != i implies us[p] == ous[p] by {}
            assert forall|p: int, q: int|
                #![trigger us[p], us[q]]
                0 <= p < us.len() && 0 <= q < us.len() && p != q implies us[p].name@
                    != us[q].name@ by {
                assert(us[p].name == ous[p].name && us[q].name == ous[q].name);
            }
            assert forall|t: Seq<char>| #[trigger] idx.contains_key(t) implies has_user(us, idx[t]) by {
                if oidx.contains_key(t) && idx[t] == oidx[t] {
                    let w = choose|w: int| user_at(ous, oidx[t], w);
                    assert(user_at(us, idx[t], w));
                } else {
                    assert(user_at(us, name@, i as int));
                }
            }
            assert(token_issued(*old(self), *self, name@, token, expiry, now)) by {
                assert(user_at(ous, name@, i as int));
            }
        }
        Ok(token)
    }

    /// Indexes the tokens of the user at `k` that are unexpired at `now` and not indexed yet.
    fn index_tokens_at(&mut self, k: usize, now: i128)
        requires
            old(self).wf(),
            k < old(self).users_view().len(),
        ensures
            final(self).wf(),
            final(self).users_view() == old(self).users_view(),
            final(self).root_token_view() == old(self).root_token_view(),
            final(self).root() == old(self).root(),
            final(self).dirty_flag() == old(self).dirty_flag(),
            forall|t: Seq<char>| indexed(old(self).index_view(), t) ==> indexed(final(self).index_view(), t),
            forall|t: Seq<char>|
                #[trigger] indexed(final(self).index_view(), t) ==> (indexed(old(self).index_view(), t)
                    && final(self).index_view()[t] == old(self).index_view()[t]) || (final(self).index_view()[t] == old(self).users_view()[k as int].name@ && token_live(
                    old(self).users_view()[k as int].tokens@,
                    t,
                    now,
                )),
            forall|e: int|
                0 <= e < old(self).users_view()[k as int].tokens@.len() && now < old(self).users_view()[k as int].tokens@[e].1 ==> indexed(
                    final(self).index_view(),
                    (#[trigger] old(self).users_view()[k as int].tokens@[e]).0@,
                ),
    {
        let ghost u = self.users@[k as int];
        let mut e: usize = 0;
        while e < self.users[k].tokens.len()
            invariant
                self.wf(),
                k < self.users@.len(),
                u == self.users@[k as int],
                self.users@ == old(self).users@,
                self.root_token == old(self).root_token,
                self.root_dir == old(self).root_dir,
                self.dirty == old(self).dirty,
                e <= u.tokens@.len(),
                forall|t: Seq<char>| indexed(old(self).index_view(), t) ==> indexed(self.index_view(), t),
                forall|t: Seq<char>|
                    #[trigger] indexed(self.index_view(), t) ==> (indexed(old(self).index_view(), t)
                        && self.index_view()[t] == old(self).index_view()[t]) || (self.index_view()[t]
                        == u.name@ && token_live(u.tokens@, t, now)),
                forall|q: int|
                    0 <= q < e && now < u.tokens@[q].1 ==> indexed(
                        self.index_view(),
                        (#[trigger] u.tokens@[q]).0@,
                    ),
            decreases u.tokens@.len() - e,
        {
            let token = self.users[k].tokens[e].0.clone();
            let expiry = self.users[k].tokens[e].1;
            if now < expiry {
                let owner = self.users[k].name.clone();
                let ghost before = self.index_view();
                let ghost tv = token@;
                assert(tv == u.tokens@[e as int].0@);
                index_insert(&mut self.tokens, token, owner);
                proof {
                    let idx = self.index_view();
                    assert forall|t: Seq<char>| #[trigger] indexed(idx, t) implies (indexed(
                        old(self).index_view(),
                        t,
                    ) && idx[t] == old(self).index_view()[t]) || (idx[t] == u.name@ && token_live(
                        u.tokens@,
                        t,
                        now,
                    )) by {
                        if before.contains_key(t) && idx[t] == before[t] {
                            assert(indexed(before, t));
                        } else {
                            assert(t == tv);
                            assert(u.tokens@[e as int].0@ == t && now < u.tokens@[e as int].1);
                        }
                    }
                    assert(user_at(self.users@, u.name@, k as int));
                    assert forall|t: Seq<char>| #[trigger] idx.contains_key(t) implies has_user(
                        self.users@,
                        idx[t],
                    ) by {
                        if before.contains_key(t) && idx[t] == before[t] {
                        } else {
                            assert(user_at(self.users@, u.name@, k as int));
                        }
                    }
                }
            }
            e = e + 1;
        }
    }

    /// Loads the users read back from storage into an empty manager, indexing the tokens that
    /// are unexpired at `now`. Fails on the first user whose name is already taken.
    pub fn read_loaded(&mut self, users: Vec<User>, now: i128) -> (r: Result<(), ManagerError>)
        requires
            old(self).wf(),
        ensures
            final(self).wf(),
            final(self).root_token_view() == old(self).root_token_view(),
            final(self).root() == old(self).root(),
            final(self).dirty_flag() == old(self).dirty_flag(),
            (old(self).users_view().len() != 0) ==> (r matches Err(ManagerError::Initialized))
                && final(self).users_view() == old(self).users_view(),
            old(self).users_view().len() == 0 ==> (r is Ok <==> forall|i: int, j: int|
                #![trigger users@[i], users@[j]]
                0 <= i < users@.len() && 0 <= j < users@.len() && i != j ==> users@[i].name@
                    != users@[j].name@),
            old(self).users_view().len() == 0 && r is Err ==> r matches Err(
                ManagerError::Duplicated,
            ),
            r is Ok ==> final(self).users_view() == users@,
            r is Ok ==> forall|t: Seq<char>|
                #[trigger] indexed(final(self).index_view(), t) <==> exists|k: int|
                    0 <= k < users@.len() && token_live((#[trigger] users@[k]).tokens@, t, now),
            r is Ok ==> forall|t: Seq<char>|
                #[trigger] indexed(final(self).index_view(), t) ==> exists|k: int|
                    0 <= k < users@.len() && final(self).index_view()[t] == (#[trigger] users@[k]).name@
                        && token_live(users@[k].tokens@, t, now),
            r is Ok ==> forall|k: int, e: int|
                0 <= k < users@.len() && 0 <= e < users@[k].tokens@.len() && now
                    < users@[k].tokens@[e].1 ==> indexed(
                    final(self).index_view(),
                    (#[trigger] users@[k].tokens@[e]).0@,
                ),
    {
        if self.users.len() != 0 {
            return Err(ManagerError::Initialized);
        }
        proof {
            assert forall|t: Seq<char>| !#[trigger] indexed(self.index_view(), t) by {
                if indexed(self.index_view(), t) {
                    assert(has_user(self.users@, self.index_view()[t]));
                }
            }
        }
        let ghost input = users@;
        let total = users.len();
        let mut rest = users;
        let mut done: usize = 0;
        while rest.len() > 0
            invariant
                self.wf(),
                self.root_token@ == old(self).root_token@,
                self.root_dir@ == old(self).root_dir@,
                self.dirty == old(self).dirty,
                old(self).users@.len() == 0,
                input == users@,
                total == input.len(),
                done + rest@.len() == input.len(),
                rest@ == input.skip(done as int),
                self.users@ == input.take(done as int),
                forall|i: int, j: int|
                    #![trigger input[i], input[j]]
                    0 <= i < done && 0 <= j < done && i != j ==> input[i].name@ != input[j].name@,
                forall|k: int, e: int|
                    0 <= k < done && 0 <= e < input[k].tokens@.len() && now
                        < input[k].tokens@[e].1 ==> indexed(
                        self.index_view(),
                        (#[trigger] input[k].tokens@[e]).0@,
                    ),
                forall|t: Seq<char>|
                    #[trigger] indexed(self.index_view(), t) ==> exists|k: int|
                        0 <= k < done && self.index_view()[t] == (#[trigger] input[k]).name@
                            && token_live(input[k].tokens@, t, now),
            decreases rest@.len(),
        {
            let u = rest.remove(0);
            assert(u == input[done as int]);
            if self.find_user(u.name.as_str()).is_some() {
                proof {
                    let w = choose|w: int| user_at(self.users@, u.name@, w);
                    assert(input[w].name@ == input[done as int].name@);
                    assert(w != done);
                    assert(!(users@[w].name@ != users@[done as int].name@));
                }
                return Err(ManagerError::Duplicated);
            }
            let ghost before = self.users@;
            self.users.push(u);
            proof {
                let us = self.users@;
                let idx = self.index_view();
                assert(us =~= input.take(done as int + 1));
                assert forall|p: int, q: int|
                    #![trigger us[p], us[q]]
                    0 <= p < us.len() && 0 <= q < us.len() && p != q implies us[p].name@
                        != us[q].name@ by {
                    let m = before.len() as int;
                    if p == m {
                        assert(!user_at(before, u.name@, q));
                    } else if q == m {
                        assert(!user_at(before, u.name@, p));
                    }
                }
                assert forall|t: Seq<char>| #[trigger] idx.contains_key(t) implies has_user(us, idx[t]) by {
                    let w = choose|w: int| user_at(before, idx[t], w);
                    assert(user_at(us, idx[t], w));
                }
            }
            let last = self.users.len() - 1;
            let ghost idx_mid = self.index_view();
            self.index_tokens_at(last, now);
            proof {
                assert forall|k: int, e: int|
                    0 <= k < done + 1 && 0 <= e < input[k].tokens@.len() && now
                        < input[k].tokens@[e].1 implies indexed(
                        self.index_view(),
                        (#[trigger] input[k].tokens@[e]).0@,
                    ) by {
                    if k < done {
                        assert(indexed(idx_mid, input[k].tokens@[e].0@));
                    } else {
                        assert(self.users@[last as int] == input[done as int]);
                    }
                }
                assert forall|t: Seq<char>| #[trigger] indexed(self.index_view(), t) implies exists|k: int|
                    0 <= k < done + 1 && self.index_view()[t] == (#[trigger] input[k]).name@
                        && token_live(input[k].tokens@, t, now) by {
                    assert(self.users@[last as int] == input[done as int]);
                    if indexed(idx_mid, t) && self.index_view()[t] == idx_mid[t] {
                        let k = choose|k: int|
                            0 <= k < done && idx_mid[t] == (#[trigger] input[k]).name@
                                && token_live(input[k].tokens@, t, now);
                    } else {
                        assert(self.index_view()[t] == input[done as int].name@ && token_live(
                            input[done as int].tokens@,
                            t,
                            now,
                        ));
                    }
                }
                assert forall|i: int, j: int|
                    #![trigger input[i], input[j]]
                    0 <= i < done + 1 && 0 <= j < done + 1 && i != j implies input[i].name@
                        != input[j].name@ by {
                    assert(self.users@[i] == input[i] && self.users@[j] == input[j]);
                }
                assert(rest@ =~= input.skip(done as int + 1));
            }
            done = done + 1;
        }
        assert(input.take(done as int) =~= input);
        proof {
            assert forall|t: Seq<char>|
                (exists|k: int|
                    0 <= k < input.len() && token_live((#[trigger] input[k]).tokens@, t, now)) implies #[trigger] indexed(self.index_view(), t) by {
                {
                    let k = choose|k: int| 0 <= k < input.len() && token_live((#[trigger] input[k]).tokens@, t, now);
                    let e = choose|e: int|
                        0 <= e < input[k].tokens@.len() && (#[trigger] input[k].tokens@[e]).0@ == t
                            && now < input[k].tokens@[e].1;
                    assert(indexed(self.index_view(), input[k].tokens@[e].0@));
                }
            }
        }
        Ok(())
    }

    /// Creates an empty user manager with a freshly generated root token for this session.
    pub fn new(root_dir: String) -> (r: Self)
        ensures
            r.wf(),
            r.users_view().len() == 0,
            r.index_view() == Entries::empty(),
            r.root_token_view().len() == 43,
            r.root() == root_dir@,
            !r.dirty_flag(),
    {
        Self::with_root_token(gen_token(), root_dir)
    }

    /// Authenticates `token` for `groups` at the current time; see [`Self::auth_at`].
    pub fn auth(&self, token: &str, groups: &Vec<Group>) -> (r: bool)
        requires
            self.wf(),
        ensures
            exists|now: i128| r == self.grants(token@, groups@, now),
            token@ == self.root_token_view() ==> r,
    {
        let now = now_nanos();
        self.auth_at(token, groups, now)
    }

    /// Issues a fresh random token to the user named `name`, valid for `days` days from now.
    pub fn add_token(&mut self, name: &str, days: u32) -> (r: Result<String, ManagerError>)
        requires
            old(self).wf(),
        ensures
            final(self).wf(),
            final(self).root_token_view() == old(self).root_token_view(),
            final(self).root() == old(self).root(),
            r is Ok <==> has_user(old(self).users_view(), name@),
            r is Err ==> (r matches Err(ManagerError::NotFound)) && final(self).users_view()
                == old(self).users_view() && final(self).index_view() == old(self).index_view()
                && final(self).dirty_flag() == old(self).dirty_flag(),
            r matches Ok(t) ==> t@.len() == 43 && (forall|i: int|
                0 <= i < t@.len() ==> url_safe_char(#[trigger] t@[i])) && indexed(final(self).index_view(), t@)
                && final(self).dirty_flag() && exists|now: i128|
                token_issued(*old(self), *final(self), name@, t, expiry_at(now, days), now),
    {
        let now = now_nanos();
        let token = gen_token();
        let expiry = expiry_after_days(now, days);
        self.add_token_at(name, token, expiry, now)
    }
}

/// Nanoseconds in a day.
pub const NANOS_PER_DAY: i128 = 86_400_000_000_000;

/// Instant `days` days after `now`, saturating at the largest instant.
pub open spec fn expiry_at(now: i128, days: u32) -> i128 {
    if now + days * NANOS_PER_DAY > i128::MAX {
        i128::MAX
    } else {
        (now + days * NANOS_PER_DAY) as i128
    }
}

/// Instant `days` days after `now`, saturating at the largest instant.
pub fn expiry_after_days(now: i128, days: u32) -> (r: i128)
    ensures
        r == expiry_at(now, days),
{
    let span: i128 = days as i128 * NANOS_PER_DAY;
    if now > i128::MAX - span {
        i128::MAX
    } else {
        now + span
    }
}

/// Text of `b` in URL-safe base64 without padding.
pub uninterp spec fn url_safe_base64(b: Seq<u8>) -> Seq<char>;

/// A character of the URL-safe base64 alphabet: `A-Z`, `a-z`, `0-9`, `-` and `_`.
pub open spec fn url_safe_char(c: char) -> bool {
    ('A' <= c && c <= 'Z') || ('a' <= c && c <= 'z') || ('0' <= c && c <= '9') || c == '-' || c
        == '_'
}

/// Relies on `base64::Engine::encode` with the `URL_SAFE_NO_PAD` engine: the encoded text, in
/// the URL-safe alphabet (`base64::alphabet::URL_SAFE`) without padding, four characters for
/// each three bytes and two or three for a trailing one or two bytes (`base64::encoded_len`,
/// which panics only when that length overflows `usize`).
#[verifier::external_body]
fn encode_url_safe(b: &Vec<u8>) -> (r: String)
    requires
        b@.len() / 3 * 4 + 4 <= usize::MAX,
    ensures
        r@ == url_safe_base64(b@),
        forall|i: int| 0 <= i < r@.len() ==> url_safe_char(#[trigger] r@[i]),
        r@.len() == b@.len() / 3 * 4 + if b@.len() % 3 == 0 {
            0
        } else {
            b@.len() % 3 + 1
        },
{
    base64::Engine::encode(&base64::engine::general_purpose::URL_SAFE_NO_PAD, b)
}

/// Relies on `rand::random` for 32 bytes from the thread-local generator, which is seeded
/// from the operating system. Nothing is promised of the bytes.
#[verifier::external_body]
fn random_token_bytes() -> (r: Vec<u8>)
    ensures
        r@.len() == 32,
{
    rand::random::<[u8; 32]>().to_vec()
}

/// Relies on `time::UtcDateTime::now` and `unix_timestamp_nanos`: the current time in
/// nanoseconds since the Unix epoch. Nothing is promised of its value.
#[verifier::external_body]
fn now_nanos() -> (r: i128) {
    time::UtcDateTime::now().unix_timestamp_nanos()
}

/// Generates a random token: 32 random bytes in URL-safe base64 without padding.
pub fn gen_token() -> (r: String)
    ensures
        r@.len() == 43,
        forall|i: int| 0 <= i < r@.len() ==> url_safe_char(#[trigger] r@[i]),
        exists|b: Seq<u8>| b.len() == 32 && r@ == url_safe_base64(b),
{
    let raw = random_token_bytes();
    encode_url_safe(&raw)
}

/// A token indexed for a user names that user, and no other.
pub proof fn registered_token_names_owner(m: &UserManager, t: Seq<char>, u: Seq<char>, n: Seq<char>)
    requires
        m.wf(),
        registered(m.index_view(), t, u),
        registered(m.index_view(), t, n),
    ensures
        n == u,
{
}

/// A token indexed for a user who holds it unexpired is authorized when no group is
/// required.
pub proof fn registered_token_authorized(m: &UserManager, t: Seq<char>, k: int, now: i128)
    requires
        m.wf(),
        0 <= k < m.users_view().len(),
        registered(m.index_view(), t, m.users_view()[k].name@),
        token_live(m.users_view()[k].tokens@, t, now),
    ensures
        m.grants(t, Seq::empty(), now),
{
    assert(in_all(m.users_view()[k], Seq::empty()));
}

/// The root token is authorized for any groups.
pub proof fn root_token_authorized(m: &UserManager, gs: Seq<Group>, now: i128)
    ensures
        m.grants(m.root_token_view(), gs, now),
{
}

} // verus!
