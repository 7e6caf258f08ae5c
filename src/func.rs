//! Function keys, metadata and the function registry.
use vstd::prelude::*;

use crate::sandbox::{SandboxConfig, SyscallFilterMode};
use crate::user::Group;

verus! {

/// Owned version of [`Key`].
#[derive(Debug, Clone)]
pub struct OwnedKey {
    /// Function name.
    pub name: String,
    /// Function version or alias.
    pub version: String,
}

/// Unique identifier of a function.
#[derive(Debug, Clone, Copy)]
pub struct Key<'a> {
    /// Function name.
    pub name: &'a str,
    /// Function version or alias.
    pub version: &'a str,
}

/// Text form `name@version` of a key.
pub open spec fn key_text(name: Seq<char>, version: Seq<char>) -> Seq<char> {
    name + seq!['@'] + version
}

/// Host name prefix `version.name` under which a function is reached.
pub open spec fn host_prefix(name: Seq<char>, version: Seq<char>) -> Seq<char> {
    version + seq!['.'] + name
}

/// Errors that may occur when parsing a function key from string.
#[derive(Debug, PartialEq, Eq, Structural)]
pub enum ParseKeyError {
    InvalidName,
    InvalidVersion,
    MissingSeparator,
}

/// Finds the first occurrence of `c` in `s`, in characters.
pub fn find_char(s: &str, c: char) -> (r: Option<usize>)
    ensures
        match r {
            Some(i) => i < s@.len() && s@[i as int] == c && !s@.take(i as int).contains(c),
            None => !s@.contains(c),
        },
{
    let n = s.unicode_len();
    let mut i: usize = 0;
    while i < n
        invariant
            n == s@.len(),
            i <= n,
            !s@.take(i as int).contains(c),
        decreases n - i,
    {
        if s.get_char(i) == c {
            return Some(i);
        }
        proof {
            assert(s@.take(i as int + 1) =~= s@.take(i as int).push(s@[i as int]));
        }
        i = i + 1;
    }
    proof {
        assert(s@.take(i as int) =~= s@);
    }
    None
}

impl std::str::FromStr for OwnedKey {
    type Err = ParseKeyError;

    fn from_str(s: &str) -> Result<OwnedKey, ParseKeyError> {
        OwnedKey::parse(s)
    }
}

impl OwnedKey {
    /// Parses a key from its text form `name@version`, splitting at the first `@`.
    pub fn parse(s: &str) -> (r: Result<OwnedKey, ParseKeyError>)
        ensures
            match r {
                Ok(k) => key_text(k.name@, k.version@) == s@ && !k.name@.contains('@'),
                Err(e) => e == ParseKeyError::MissingSeparator && !s@.contains('@'),
            },
    {
        match find_char(s, '@') {
            None => Err(ParseKeyError::MissingSeparator),
            Some(i) => {
                let n = s.unicode_len();
                let name = s.substring_char(0, i).to_owned();
                let version = s.substring_char(i + 1, n).to_owned();
                proof {
                    assert(key_text(name@, version@) =~= s@);
                }
                Ok(OwnedKey { name, version })
            }
        }
    }

    /// Returns the text form `name@version` of this key.
    pub fn to_string(&self) -> (r: String)
        ensures
            r@ == key_text(self.name@, self.version@),
    {
        self.as_ref().to_string()
    }

    /// Converts this owned key into a borrowed one.
    pub fn as_ref(&self) -> (r: Key<'_>)
        ensures
            r.name@ == self.name@,
            r.version@ == self.version@,
    {
        Key { name: self.name.as_str(), version: self.version.as_str() }
    }
}

impl<'a> Key<'a> {
    /// Converts this borrowed key into its owned variant.
    pub fn into_owned(self) -> (r: OwnedKey)
        ensures
            r.name@ == self.name@,
            r.version@ == self.version@,
    {
        OwnedKey { name: self.name.to_owned(), version: self.version.to_owned() }
    }

    /// Returns the text form `name@version` of this key.
    pub fn to_string(&self) -> (r: String)
        ensures
            r@ == key_text(self.name@, self.version@),
    {
        let mut s = self.name.to_owned();
        s.append("@");
        s.append(self.version);
        proof {
            reveal_strlit("@");
        }
        s
    }

    /// Converts this borrowed key into a prefix for host names: `version.name`.
    pub fn to_host_prefix(&self) -> (r: String)
        ensures
            r@ == host_prefix(self.name@, self.version@),
    {
        let mut s = self.version.to_owned();
        s.append(".");
        s.append(self.name);
        proof {
            reveal_strlit(".");
        }
        s
    }
}

/// Metadata of a [`Function`].
#[derive(Debug)]
pub struct Metadata {
    /// The function's name.
    pub name: String,
    /// Version identifier of the function.
    pub version: String,
    /// Alias of the function's version for quick access in subdomains.
    pub version_alias: Option<String>,
}

/// Runtime configuration of a [`Function`].
#[derive(Debug)]
pub struct Config {
    /// Required user group to modify this function.
    pub group: Option<Group>,
    /// Address (`ip:port`) this function listens on for HTTP and WebSocket connections.
    pub addr: String,
    /// Configuration of the sandbox.
    pub sandbox: SandboxConfig,
}

/// Information of a function for the platform to host and perform.
#[derive(Debug)]
pub struct Function {
    /// Metadata of the function, managed by the services.
    pub meta: Metadata,
    /// Runtime configuration of the function.
    pub config: Config,
}

/// Address a function listens on unless configured otherwise.
pub open spec fn default_addr() -> Seq<char> {
    "127.0.0.1:0"@
}

impl Default for Config {
    fn default() -> (r: Self)
        ensures
            r.group is None,
            r.addr@ == default_addr(),
            r.sandbox.command@.len() == 0,
            r.sandbox.args@.len() == 0,
            r.sandbox.ro_entries@.len() == 0,
            r.sandbox.envs@.len() == 0,
            !r.sandbox.inherit_stdout,
            r.sandbox.platform_ext.syscall_filter_mode == SyscallFilterMode::Deny,
            r.sandbox.platform_ext.syscall_filter@.len() == 0,
            r.sandbox.platform_ext.mount_procfs,
            r.sandbox.platform_ext.mount_devtmpfs,
            !r.sandbox.platform_ext.mount_tmpfs,
    {
        Config { group: None, addr: "127.0.0.1:0".to_owned(), sandbox: SandboxConfig::default() }
    }
}

impl Default for Metadata {
    fn default() -> (r: Self)
        ensures
            r.name@.len() == 0,
            r.version@.len() == 0,
            r.version_alias is None,
    {
        Metadata { name: String::new(), version: String::new(), version_alias: None }
    }
}

/// View of an optional alias.
pub open spec fn alias_of(m: Metadata) -> Option<Seq<char>> {
    match m.version_alias {
        Some(a) => Some(a@),
        None => None,
    }
}

/// View of an optional string.
pub open spec fn opt_view(o: Option<String>) -> Option<Seq<char>> {
    match o {
        Some(a) => Some(a@),
        None => None,
    }
}

/// `f` is reached at `name@v` through its alias.
pub open spec fn alias_slot(f: Function, name: Seq<char>, v: Seq<char>) -> bool {
    f.meta.name@ == name && alias_of(f.meta) == Some(v)
}

/// `f` is reached at `name@v` through its canonical key.
pub open spec fn canonical_slot(f: Function, name: Seq<char>, v: Seq<char>) -> bool {
    f.meta.name@ == name && f.meta.version@ == v
}

/// Some function of `fs` holds the alias `name@v`.
pub open spec fn aliased(fs: Seq<Function>, name: Seq<char>, v: Seq<char>) -> bool {
    exists|i: int| 0 <= i < fs.len() && alias_slot(#[trigger] fs[i], name, v)
}

/// Some function of `fs` is reached at `name@v`, canonically or through its alias.
pub open spec fn occupied(fs: Seq<Function>, name: Seq<char>, v: Seq<char>) -> bool {
    exists|i: int|
        0 <= i < fs.len() && (alias_slot(#[trigger] fs[i], name, v) || canonical_slot(
            fs[i],
            name,
            v,
        ))
}

/// `name@v` resolves to the function at index `i`: an alias entry takes the slot, else the
/// canonical entry.
pub open spec fn resolves_to(fs: Seq<Function>, name: Seq<char>, v: Seq<char>, i: int) -> bool {
    0 <= i < fs.len() && if aliased(fs, name, v) {
        alias_slot(fs[i], name, v)
    } else {
        canonical_slot(fs[i], name, v)
    }
}

/// Registry invariant: canonical keys are unique, and so are the aliases of one name.
pub open spec fn registry_wf(fs: Seq<Function>) -> bool {
    &&& forall|i: int, j: int|
        #![trigger fs[i], fs[j]]
        0 <= i < fs.len() && 0 <= j < fs.len() && i != j ==> !canonical_slot(
            fs[j],
            fs[i].meta.name@,
            fs[i].meta.version@,
        )
    &&& forall|i: int, j: int|
        #![trigger fs[i], fs[j]]
        0 <= i < fs.len() && 0 <= j < fs.len() && i != j && fs[i].meta.version_alias is Some
            ==> !alias_slot(fs[j], fs[i].meta.name@, alias_of(fs[i].meta)->0)
    &&& forall|i: int, j: int|
        #![trigger fs[i], fs[j]]
        0 <= i < fs.len() && 0 <= j < fs.len() && i != j && fs[j].meta.version_alias is Some
            ==> !canonical_slot(fs[i], fs[j].meta.name@, alias_of(fs[j].meta)->0)
}

/// `f` with its alias replaced.
pub open spec fn with_alias(f: Function, a: Option<String>) -> Function {
    Function {
        meta: Metadata { name: f.meta.name, version: f.meta.version, version_alias: a },
        config: f.config,
    }
}

/// `f` with its configuration replaced.
pub open spec fn with_config(f: Function, c: Config) -> Function {
    Function { meta: f.meta, config: c }
}

/// Registry after setting the alias of the function at `i` to `a`, before the slot it lands
/// on is taken over: a function of the same name that held alias `a` loses it.
pub open spec fn alias_set(fs: Seq<Function>, i: int, a: Option<String>) -> Seq<Function> {
    Seq::new(
        fs.len(),
        |j: int|
            if j == i {
                with_alias(fs[i], a)
            } else if a is Some && alias_slot(fs[j], fs[i].meta.name@, a->0@) {
                with_alias(fs[j], None)
            } else {
                fs[j]
            },
    )
}

/// Another function than the one at `i` has the canonical key `name@v`.
pub open spec fn canonical_other(fs: Seq<Function>, i: int, name: Seq<char>, v: Seq<char>) -> bool {
    exists|c: int| 0 <= c < fs.len() && c != i && canonical_slot(#[trigger] fs[c], name, v)
}

/// Index of the function other than the one at `i` whose canonical key is `name@v`.
pub open spec fn canonical_other_index(fs: Seq<Function>, i: int, name: Seq<char>, v: Seq<char>) -> int {
    choose|c: int| 0 <= c < fs.len() && c != i && canonical_slot(#[trigger] fs[c], name, v)
}

/// Registry after setting the alias of the function at `i` to `a`. A function of the same
/// name that held alias `a` loses it; a function whose canonical key is the new alias slot is
/// overwritten there, and with its slot gone it leaves the registry. Setting the alias a
/// function already has changes nothing.
pub open spec fn alias_update(fs: Seq<Function>, i: int, a: Option<String>) -> Seq<Function> {
    if alias_of(fs[i].meta) == opt_view(a) {
        fs
    } else if a is Some && canonical_other(fs, i, fs[i].meta.name@, a->0@) {
        alias_set(fs, i, a).remove(canonical_other_index(fs, i, fs[i].meta.name@, a->0@))
    } else {
        alias_set(fs, i, a)
    }
}

/// A function freshly added under `name@version` with an initial group.
pub open spec fn fresh_function(
    f: Function,
    name: Seq<char>,
    version: Seq<char>,
    group: Option<Group>,
) -> bool {
    fresh_defaults(f, name, version) && f.config.group == group
}

/// A function under `name@version` with no alias and the default configuration but for its
/// group.
pub open spec fn fresh_defaults(f: Function, name: Seq<char>, version: Seq<char>) -> bool {
    &&& f.meta.name@ == name
    &&& f.meta.version@ == version
    &&& f.meta.version_alias is None
    &&& f.config.addr@ == default_addr()
    &&& f.config.sandbox.command@.len() == 0
    &&& f.config.sandbox.args@.len() == 0
    &&& f.config.sandbox.ro_entries@.len() == 0
    &&& f.config.sandbox.envs@.len() == 0
    &&& !f.config.sandbox.inherit_stdout
    &&& f.config.sandbox.platform_ext.syscall_filter_mode == SyscallFilterMode::Deny
    &&& f.config.sandbox.platform_ext.syscall_filter@.len() == 0
    &&& f.config.sandbox.platform_ext.mount_procfs
    &&& f.config.sandbox.platform_ext.mount_devtmpfs
    &&& !f.config.sandbox.platform_ext.mount_tmpfs
}

/// Errors that may occur when working with a [`FunctionManager`].
#[derive(Debug)]
pub enum ManagerError {
    NotAliased,
    Io(String),
    ParseJson(String),
    Initialized,
    Duplicated,
    NotFound,
}

/// Manager of all functions.
///
/// Each function is stored once; its alias, if any, is a second name under which it is
/// reached. On disk each function lives in a directory `name@version` under the root
/// directory, holding `metadata.json`, `config.json` and the `contents` directory.
#[derive(Debug)]
pub struct FunctionManager {
    functions: Vec<Function>,
    root_dir: String,
    dirty: bool,
}

/// Name of the directory that holds a function's unpacked archive.
pub open spec fn contents_dir() -> Seq<char> {
    "contents"@
}

impl View for FunctionManager {
    type V = Seq<Function>;

    closed spec fn view(&self) -> Seq<Function> {
        self.functions@
    }
}

impl FunctionManager {
    /// Whether there are changes not yet written to the filesystem.
    pub closed spec fn dirty_flag(&self) -> bool {
        self.dirty
    }

    /// Root directory of the stored functions.
    pub closed spec fn root(&self) -> Seq<char> {
        self.root_dir@
    }

    /// The registry invariant holds.
    pub open spec fn wf(&self) -> bool {
        registry_wf(self@)
    }

    /// Creates an empty function manager rooted at `root_dir`.
    pub fn new(root_dir: String) -> (r: Self)
        ensures
            r@.len() == 0,
            r.wf(),
            !r.dirty_flag(),
            r.root() == root_dir@,
    {
        FunctionManager { functions: Vec::new(), root_dir, dirty: false }
    }

    /// Checks whether the manager has changes not yet written to the filesystem.
    pub fn is_dirty(&self) -> (r: bool)
        ensures
            r == self.dirty_flag(),
    {
        self.dirty
    }

    /// Checks whether this function manager is empty.
    pub fn is_empty(&self) -> (r: bool)
        ensures
            r == (self@.len() == 0),
    {
        self.functions.len() == 0
    }

    /// All stored functions, each once.
    pub fn functions(&self) -> (r: &Vec<Function>)
        ensures
            r@ == self@,
    {
        &self.functions
    }

    /// Finds the function that `key` resolves to.
    pub fn find(&self, key: Key<'_>) -> (r: Option<usize>)
        requires
            self.wf(),
        ensures
            match r {
                Some(i) => resolves_to(self@, key.name@, key.version@, i as int),
                None => !occupied(self@, key.name@, key.version@),
            },
    {
        let name = key.name.to_owned();
        let version = key.version.to_owned();
        let n = self.functions.len();
        let mut i: usize = 0;
        while i < n
            invariant
                n == self@.len(),
                i <= n,
                name@ == key.name@,
                version@ == key.version@,
                forall|j: int| 0 <= j < i ==> !alias_slot(#[trigger] self@[j], name@, version@),
            decreases n - i,
        {
            let f = &self.functions[i];
            if f.meta.name == name {
                if let Some(a) = &f.meta.version_alias {
                    if *a == version {
                        return Some(i);
                    }
                }
            }
            i = i + 1;
        }
        let mut i: usize = 0;
        while i < n
            invariant
                n == self@.len(),
                i <= n,
                name@ == key.name@,
                version@ == key.version@,
                !aliased(self@, name@, version@),
                forall|j: int| 0 <= j < i ==> !canonical_slot(#[trigger] self@[j], name@, version@),
            decreases n - i,
        {
            let f = &self.functions[i];
            if f.meta.name == name && f.meta.version == version {
                return Some(i);
            }
            i = i + 1;
        }
        None
    }

    /// Returns the function that `key` resolves to, canonically or through an alias.
    pub fn get(&self, key: Key<'_>) -> (r: Option<&Function>)
        requires
            self.wf(),
        ensures
            match r {
                Some(f) => exists|i: int|
                    resolves_to(self@, key.name@, key.version@, i) && self@[i] == *f,
                None => !occupied(self@, key.name@, key.version@),
            },
    {
        match self.find(key) {
            Some(i) => Some(&self.functions[i]),
            None => None,
        }
    }


    /// Adds a function under `key` with an initial group and otherwise default configuration.
    /// Unpacking its archive into [`Self::contents_path`] is up to the caller.
    pub fn add_func(&mut self, key: Key<'_>, init_group: Option<Group>) -> (r: Result<
        (),
        ManagerError,
    >)
        requires
            old(self).wf(),
        ensures
            final(self).wf(),
            final(self).root() == old(self).root(),
            occupied(old(self)@, key.name@, key.version@) <==> r is Err,
            r is Err ==> r == Err::<(), ManagerError>(ManagerError::Duplicated) && final(self)@
                == old(self)@ && final(self).dirty_flag() == old(self).dirty_flag(),
            r is Ok ==> {
                &&& final(self)@.len() == old(self)@.len() + 1
                &&& final(self)@.drop_last() == old(self)@
                &&& fresh_function(final(self)@.last(), key.name@, key.version@, init_group)
                &&& final(self).dirty_flag()
            },
    {
        if self.find(key).is_some() {
            return Err(ManagerError::Duplicated);
        }
        let meta = Metadata {
            name: key.name.to_owned(),
            version: key.version.to_owned(),
            version_alias: None,
        };
        let mut config = Config::default();
        config.group = init_group;
        self.functions.push(Function { meta, config });
        self.dirty = true;
        proof {
            assert(self@.drop_last() =~= old(self)@);
        }
        Ok(())
    }

    /// Replaces the configuration of the function that `key` resolves to.
    pub fn modify_config(&mut self, key: Key<'_>, config: Config) -> (r: Result<(), ManagerError>)
        requires
            old(self).wf(),
        ensures
            final(self).wf(),
            final(self).root() == old(self).root(),
            occupied(old(self)@, key.name@, key.version@) <==> r is Ok,
            r is Err ==> r == Err::<(), ManagerError>(ManagerError::NotFound) && final(self)@
                == old(self)@ && final(self).dirty_flag() == old(self).dirty_flag(),
            r is Ok ==> final(self).dirty_flag() && exists|i: int|
                resolves_to(old(self)@, key.name@, key.version@, i) && final(self)@ == old(self)@.update(i, with_config(old(self)@[i], config)),
    {
        match self.find(key) {
            None => Err(ManagerError::NotFound),
            Some(i) => {
                let mut f = self.functions.remove(i);
                f.config = config;
                self.functions.insert(i, f);
                self.dirty = true;
                proof {
                    assert(self@ =~= old(self)@.update(i as int, with_config(old(self)@[i as int], config)));
                }
                Ok(())
            },
        }
    }

    /// Sets the alias of the function that `key` resolves to.
    ///
    /// Another function of the same name that held the new alias loses it; the old alias of
    /// this function stops resolving. Setting the alias a function already has changes nothing.
    pub fn modify_alias(&mut self, key: Key<'_>, alias: Option<String>) -> (r: Result<
        (),
        ManagerError,
    >)
        requires
            old(self).wf(),
        ensures
            final(self).wf(),
            final(self).root() == old(self).root(),
            occupied(old(self)@, key.name@, key.version@) <==> r is Ok,
            r is Err ==> r == Err::<(), ManagerError>(ManagerError::NotFound) && final(self)@
                == old(self)@ && final(self).dirty_flag() == old(self).dirty_flag(),
            r is Ok ==> final(self).dirty_flag() && exists|i: int|
                resolves_to(old(self)@, key.name@, key.version@, i) && final(self)@
                    == alias_update(old(self)@, i, alias),
    {
        let i = match self.find(key) {
            None => {
                return Err(ManagerError::NotFound);
            },
            Some(i) => i,
        };
        let same = match (&self.functions[i].meta.version_alias, &alias) {
            (Some(a), Some(b)) => *a == *b,
            (None, None) => true,
            _ => false,
        };
        if same {
            self.dirty = true;
            proof {
                assert(alias_of(old(self)@[i as int].meta) == opt_view(alias));
                assert(alias_update(old(self)@, i as int, alias) == old(self)@);
            }
            return Ok(());
        }
        let ghost fs = old(self)@;
        let ghost target = alias_set(fs, i as int, alias);
        if let Some(a) = &alias {
            let name = self.functions[i].meta.name.clone();
            let n = self.functions.len();
            let mut j: usize = 0;
            while j < n
                invariant
                    self@.len() == n,
                    fs.len() == n,
                    j <= n,
                    i < n,
                    name@ == fs[i as int].meta.name@,
                    alias == Some(*a),
                    target == alias_set(fs, i as int, alias),
                    self.root_dir == old(self).root_dir,
                    forall|k: int| 0 <= k < j && k != i ==> #[trigger] self@[k] == target[k],
                    forall|k: int| j <= k < n || k == i ==> #[trigger] self@[k] == fs[k],
                decreases n - j,
            {
                if j != i {
                    let hit = match &self.functions[j].meta.version_alias {
                        Some(b) => self.functions[j].meta.name == name && *b == *a,
                        None => false,
                    };
                    if hit {
                        let mut f = self.functions.remove(j);
                        f.meta.version_alias = None;
                        self.functions.insert(j, f);
                    }
                }
                j = j + 1;
            }
        }
        let landing = match &alias {
            Some(a) => Some(a.clone()),
            None => None,
        };
        let mut f = self.functions.remove(i);
        f.meta.version_alias = alias;
        self.functions.insert(i, f);
        self.dirty = true;
        assert(self@ =~= target);
        if let Some(a) = &landing {
            let name = self.functions[i].meta.name.clone();
            if let Some(c) = self.find_canonical_other(i, &name, a) {
                proof {
                    let cc = canonical_other_index(fs, i as int, name@, a@);
                    assert(canonical_slot(fs[c as int], name@, a@));
                    assert(canonical_other(fs, i as int, name@, a@));
                    if cc != c as int {
                        assert(canonical_slot(fs[cc], fs[c as int].meta.name@, fs[c as int].meta.version@));
                    }
                }
                self.functions.remove(c);
            } else {
                proof {
                    if canonical_other(fs, i as int, name@, a@) {
                        let cc = canonical_other_index(fs, i as int, name@, a@);
                        assert(canonical_slot(self@[cc], name@, a@));
                    }
                }
            }
        }
        proof {
            assert(self@ =~= alias_update(fs, i as int, alias));
            lemma_alias_update_wf(fs, i as int, alias);
        }
        Ok(())
    }

    /// Index of a function other than the one at `i` whose canonical key is `name@v`.
    fn find_canonical_other(&self, i: usize, name: &String, v: &String) -> (r: Option<usize>)
        ensures
            match r {
                Some(c) => c < self@.len() && c != i && canonical_slot(self@[c as int], name@, v@),
                None => !canonical_other(self@, i as int, name@, v@),
            },
    {
        let mut j: usize = 0;
        while j < self.functions.len()
            invariant
                j <= self@.len(),
                forall|k: int|
                    0 <= k < j && k != i ==> !canonical_slot(#[trigger] self@[k], name@, v@),
            decreases self@.len() - j,
        {
            if j != i && self.functions[j].meta.name == *name && self.functions[j].meta.version == *v {
                return Some(j);
            }
            j = j + 1;
        }
        None
    }

    /// Removes the function that `key` resolves to, together with its alias, and returns its
    /// canonical key, whose directory the caller deletes.
    pub fn remove_func(&mut self, key: Key<'_>) -> (r: Result<OwnedKey, ManagerError>)
        requires
            old(self).wf(),
        ensures
            final(self).wf(),
            final(self).root() == old(self).root(),
            occupied(old(self)@, key.name@, key.version@) <==> r is Ok,
            r is Err ==> r == Err::<OwnedKey, ManagerError>(ManagerError::NotFound)
                && final(self)@ == old(self)@ && final(self).dirty_flag() == old(self).dirty_flag(),
            r matches Ok(k) ==> final(self).dirty_flag() && exists|i: int|
                resolves_to(old(self)@, key.name@, key.version@, i) && final(self)@ == old(self)@.remove(i) && k.name@ == old(self)@[i].meta.name@ && k.version@ == old(self)@[i].meta.version@,
    {
        match self.find(key) {
            None => Err(ManagerError::NotFound),
            Some(i) => {
                let f = self.functions.remove(i);
                self.dirty = true;
                proof {
                    let fs = old(self)@;
                    assert forall|p: int, q: int|
                        #![trigger self@[p], self@[q]]
                        0 <= p < self@.len() && 0 <= q < self@.len() && p != q implies {
                            &&& !canonical_slot(self@[q], self@[p].meta.name@, self@[p].meta.version@)
                            &&& self@[p].meta.version_alias is Some ==> !alias_slot(
                                self@[q],
                                self@[p].meta.name@,
                                alias_of(self@[p].meta)->0,
                            )
                        } by {
                        let pp = if p < i { p } else { p + 1 };
                        let qq = if q < i { q } else { q + 1 };
                        assert(self@[p] == fs[pp] && self@[q] == fs[qq]);
                    }
                }
                Ok(OwnedKey { name: f.meta.name, version: f.meta.version })
            },
        }
    }

    /// Adds a function read back from the filesystem.
    ///
    /// A function whose key is already taken is skipped and `false` returned; an alias that is
    /// already taken is dropped from the added function.
    pub fn load_function(&mut self, f: Function) -> (r: bool)
        requires
            old(self).wf(),
        ensures
            final(self).wf(),
            final(self).root() == old(self).root(),
            final(self).dirty_flag() == old(self).dirty_flag(),
            r == !occupied(old(self)@, f.meta.name@, f.meta.version@),
            !r ==> final(self)@ == old(self)@,
            r ==> {
                &&& final(self)@.len() == old(self)@.len() + 1
                &&& final(self)@.drop_last() == old(self)@
                &&& final(self)@.last() == if f.meta.version_alias is Some && occupied(
                    old(self)@,
                    f.meta.name@,
                    alias_of(f.meta)->0,
                ) {
                    with_alias(f, None)
                } else {
                    f
                }
            },
    {
        let taken = self.find(Key { name: f.meta.name.as_str(), version: f.meta.version.as_str() });
        if taken.is_some() {
            return false;
        }
        let mut f = f;
        let alias_taken = match &f.meta.version_alias {
            Some(a) => self.find(Key { name: f.meta.name.as_str(), version: a.as_str() }).is_some(),
            None => false,
        };
        if alias_taken {
            f.meta.version_alias = None;
        }
        let ghost g = f;
        self.functions.push(f);
        proof {
            assert(self@.drop_last() =~= old(self)@);
            let fs = self@;
            let n = old(self)@.len() as int;
            assert(fs[n] == g);
            assert forall|p: int, q: int|
                #![trigger fs[p], fs[q]]
                0 <= p < fs.len() && 0 <= q < fs.len() && p != q implies {
                    &&& !canonical_slot(fs[q], fs[p].meta.name@, fs[p].meta.version@)
                    &&& fs[p].meta.version_alias is Some ==> !alias_slot(
                        fs[q],
                        fs[p].meta.name@,
                        alias_of(fs[p].meta)->0,
                    )
                } by {
                if p < n && q < n {
                    assert(fs[p] == old(self)@[p] && fs[q] == old(self)@[q]);
                } else if q == n {
                    assert(fs[p] == old(self)@[p]);
                    if canonical_slot(fs[q], fs[p].meta.name@, fs[p].meta.version@) {
                        assert(canonical_slot(old(self)@[p], g.meta.name@, g.meta.version@));
                    }
                    if fs[p].meta.version_alias is Some && alias_slot(
                        fs[q],
                        fs[p].meta.name@,
                        alias_of(fs[p].meta)->0,
                    ) {
                        assert(alias_slot(old(self)@[p], g.meta.name@, alias_of(g.meta)->0));
                    }
                } else {
                    assert(fs[q] == old(self)@[q]);
                    if fs[p].meta.version_alias is Some && alias_slot(
                        fs[q],
                        fs[p].meta.name@,
                        alias_of(fs[p].meta)->0,
                    ) {
                        assert(alias_slot(old(self)@[q], g.meta.name@, alias_of(g.meta)->0));
                    }
                    if canonical_slot(fs[q], fs[p].meta.name@, fs[p].meta.version@) {
                        assert(canonical_slot(old(self)@[q], g.meta.name@, g.meta.version@));
                    }
                }
            }
        }
        true
    }

    /// Loads the functions read back from the filesystem into an empty manager, skipping
    /// those whose key is already taken.
    pub fn read_loaded(&mut self, funcs: Vec<Function>) -> (r: Result<(), ManagerError>)
        requires
            old(self).wf(),
        ensures
            final(self).wf(),
            final(self).root() == old(self).root(),
            final(self).dirty_flag() == old(self).dirty_flag(),
            (old(self)@.len() != 0) <==> r is Err,
            r is Err ==> r == Err::<(), ManagerError>(ManagerError::Initialized) && final(self)@
                == old(self)@,
            r is Ok ==> forall|k: int|
                0 <= k < funcs@.len() ==> occupied(
                    final(self)@,
                    #[trigger] funcs@[k].meta.name@,
                    funcs@[k].meta.version@,
                ),
            r is Ok ==> forall|i: int|
                0 <= i < final(self)@.len() ==> exists|k: int|
                    0 <= k < funcs@.len() && (#[trigger] final(self)@[i] == funcs@[k]
                        || final(self)@[i] == with_alias(funcs@[k], None)),
    {
        if self.functions.len() != 0 {
            return Err(ManagerError::Initialized);
        }
        let ghost input = funcs@;
        let total = funcs.len();
        let mut rest = funcs;
        let mut done: usize = 0;
        while rest.len() > 0
            invariant
                self.wf(),
                self.root() == old(self).root(),
                self.dirty == old(self).dirty,
                total == input.len(),
                done + rest@.len() == input.len(),
                rest@ == input.skip(done as int),
                forall|k: int|
                    0 <= k < done ==> occupied(
                        self@,
                        #[trigger] input[k].meta.name@,
                        input[k].meta.version@,
                    ),
                forall|i: int|
                    0 <= i < self@.len() ==> exists|k: int|
                        0 <= k < done && (#[trigger] self@[i] == input[k] || self@[i] == with_alias(
                            input[k],
                            None,
                        )),
            decreases rest@.len(),
        {
            let f = rest.remove(0);
            let ghost before = self@;
            let ghost g = f;
            assert(g == input[done as int]);
            let added = self.load_function(f);
            proof {
                assert forall|k: int| 0 <= k < done + 1 implies occupied(
                    self@,
                    #[trigger] input[k].meta.name@,
                    input[k].meta.version@,
                ) by {
                    if k < done {
                        let w = choose|w: int|
                            0 <= w < before.len() && (alias_slot(
                                #[trigger] before[w],
                                input[k].meta.name@,
                                input[k].meta.version@,
                            ) || canonical_slot(before[w], input[k].meta.name@, input[k].meta.version@));
                        if added {
                            assert(self@[w] == before[w]);
                        }
                    } else if added {
                        let last = before.len() as int;
                        assert(canonical_slot(self@[last], g.meta.name@, g.meta.version@));
                    }
                }
                assert(rest@ =~= input.skip(done as int + 1));
                assert forall|i: int| 0 <= i < self@.len() implies exists|k: int|
                    0 <= k < done + 1 && (#[trigger] self@[i] == input[k] || self@[i] == with_alias(
                        input[k],
                        None,
                    )) by {
                    if i < before.len() {
                        assert(self@[i] == before[i]);
                        let k = choose|k: int|
                            0 <= k < done && (#[trigger] before[i] == input[k] || before[i]
                                == with_alias(input[k], None));
                    } else {
                        assert(self@[i] == self@.last());
                    }
                }
            }
            done = done + 1;
        }
        Ok(())
    }

    /// Records that every function has been written to the filesystem.
    pub fn mark_written(&mut self)
        ensures
            final(self)@ == old(self)@,
            final(self).root() == old(self).root(),
            !final(self).dirty_flag(),
    {
        self.dirty = false;
    }

    /// Returns the path to the `contents` directory of a function.
    pub fn contents_path(&self, key: Key<'_>) -> (r: String)
        ensures
            r@ == self.root() + seq!['/'] + key_text(key.name@, key.version@) + seq!['/']
                + contents_dir(),
    {
        let mut s = self.root_dir.clone();
        s.append("/");
        s.append(key.to_string().as_str());
        s.append("/contents");
        proof {
            reveal_strlit("/");
            reveal_strlit("/contents");
            reveal_strlit("contents");
            assert(s@ =~= self.root() + seq!['/'] + key_text(key.name@, key.version@) + seq![
                '/',
            ] + contents_dir());
        }
        s
    }
}

/// Splitting at the first separator recovers both halves when the first half holds none.
pub proof fn lemma_split_unique(a: Seq<char>, b: Seq<char>, c: Seq<char>, d: Seq<char>, sep: char)
    requires
        a + seq![sep] + b == c + seq![sep] + d,
        !a.contains(sep),
        !c.contains(sep),
    ensures
        a == c,
        b == d,
{
    let s = a + seq![sep] + b;
    if a.len() < c.len() {
        assert(s[a.len() as int] == sep);
        assert(c[a.len() as int] == s[a.len() as int]);
    } else if c.len() < a.len() {
        assert(s[c.len() as int] == sep);
        assert(a[c.len() as int] == s[c.len() as int]);
    }
    assert(a =~= s.take(a.len() as int));
    assert(c =~= s.take(c.len() as int));
    assert(b =~= s.skip(a.len() as int + 1));
    assert(d =~= s.skip(c.len() as int + 1));
}

/// A key whose name holds no `@` reads back from its text form unchanged: parsing the text
/// of `name@version` gives back `name` and `version`.
pub proof fn key_text_round_trip(
    name: Seq<char>,
    version: Seq<char>,
    parsed_name: Seq<char>,
    parsed_version: Seq<char>,
)
    requires
        !name.contains('@'),
        !parsed_name.contains('@'),
        key_text(parsed_name, parsed_version) == key_text(name, version),
    ensures
        parsed_name == name,
        parsed_version == version,
        key_text(name, version).contains('@'),
{
    lemma_split_unique(parsed_name, parsed_version, name, version, '@');
    assert(key_text(name, version)[name.len() as int] == '@');
}

/// At most one function is resolved by a key.
pub proof fn lemma_resolves_unique(fs: Seq<Function>, name: Seq<char>, v: Seq<char>, i: int, j: int)
    requires
        registry_wf(fs),
        resolves_to(fs, name, v, i),
        resolves_to(fs, name, v, j),
    ensures
        i == j,
{
    if i != j {
        if aliased(fs, name, v) {
            assert(fs[i].meta.version_alias is Some);
        } else {
            assert(canonical_slot(fs[j], fs[i].meta.name@, fs[i].meta.version@));
        }
    }
}

/// Setting an alias keeps the registry invariant.
pub proof fn lemma_alias_update_wf(fs: Seq<Function>, i: int, a: Option<String>)
    requires
        registry_wf(fs),
        0 <= i < fs.len(),
    ensures
        registry_wf(alias_update(fs, i, a)),
{
    if alias_of(fs[i].meta) == opt_view(a) {
        return;
    }
    let t = alias_set(fs, i, a);
    let n = fs[i].meta.name@;
    assert forall|p: int| 0 <= p < t.len() implies (#[trigger] t[p]).meta.name == fs[p].meta.name
        && t[p].meta.version == fs[p].meta.version by {}
    assert forall|p: int, q: int|
        #![trigger t[p], t[q]]
        0 <= p < t.len() && 0 <= q < t.len() && p != q implies !canonical_slot(
            t[q],
            t[p].meta.name@,
            t[p].meta.version@,
        ) by {
        assert(!canonical_slot(fs[q], fs[p].meta.name@, fs[p].meta.version@));
    }
    assert forall|p: int, q: int|
        #![trigger t[p], t[q]]
        0 <= p < t.len() && 0 <= q < t.len() && p != q && t[p].meta.version_alias is Some
            implies !alias_slot(t[q], t[p].meta.name@, alias_of(t[p].meta)->0) by {
        if p != i && q != i {
            assert(fs[p].meta.version_alias is Some);
        }
        if q == i && p != i {
            assert(fs[p].meta.version_alias is Some);
        }
    }
    assert forall|p: int, q: int|
        #![trigger t[p], t[q]]
        0 <= p < t.len() && 0 <= q < t.len() && p != q && t[q].meta.version_alias is Some && !(q
            == i && a is Some && canonical_slot(fs[p], n, a->0@)) implies !canonical_slot(
            t[p],
            t[q].meta.name@,
            alias_of(t[q].meta)->0,
        ) by {
        if q != i {
            assert(fs[q].meta.version_alias is Some);
            assert(t[q] == fs[q]);
            assert(!canonical_slot(fs[p], fs[q].meta.name@, alias_of(fs[q].meta)->0));
        }
    }
    if a is Some && canonical_other(fs, i, n, a->0@) {
        let c = canonical_other_index(fs, i, n, a->0@);
        let r = t.remove(c);
        assert forall|p: int, q: int|
            #![trigger r[p], r[q]]
            0 <= p < r.len() && 0 <= q < r.len() && p != q implies {
                &&& !canonical_slot(r[q], r[p].meta.name@, r[p].meta.version@)
                &&& r[p].meta.version_alias is Some ==> !alias_slot(
                    r[q],
                    r[p].meta.name@,
                    alias_of(r[p].meta)->0,
                )
                &&& r[q].meta.version_alias is Some ==> !canonical_slot(
                    r[p],
                    r[q].meta.name@,
                    alias_of(r[q].meta)->0,
                )
            } by {
            let pp = if p < c { p } else { p + 1 };
            let qq = if q < c { q } else { q + 1 };
            assert(r[p] == t[pp] && r[q] == t[qq]);
            if qq == i && a is Some && canonical_slot(fs[pp], n, a->0@) {
                assert(canonical_slot(fs[c], n, a->0@));
                assert(canonical_slot(fs[c], fs[pp].meta.name@, fs[pp].meta.version@));
            }
        }
    }
}

/// Clearing an alias that differs from the function's own version leaves nothing reachable
/// at the alias slot.
pub proof fn alias_removed_frees_slot(fs: Seq<Function>, i: int)
    requires
        registry_wf(fs),
        0 <= i < fs.len(),
        fs[i].meta.version_alias is Some,
        alias_of(fs[i].meta)->0 != fs[i].meta.version@,
    ensures
        !occupied(alias_update(fs, i, None), fs[i].meta.name@, alias_of(fs[i].meta)->0),
{
    let t = alias_update(fs, i, None);
    let n = fs[i].meta.name@;
    let v = alias_of(fs[i].meta)->0;
    assert(t == alias_set(fs, i, None));
    assert forall|j: int| 0 <= j < t.len() implies !alias_slot(#[trigger] t[j], n, v)
        && !canonical_slot(t[j], n, v) by {
        if j != i {
            assert(t[j] == fs[j]);
            assert(!alias_slot(fs[j], n, v));
            assert(!canonical_slot(fs[j], n, v));
        }
    }
}

/// Every alias resolves: a function whose alias is `a` is the one reached at `name@a`.
pub proof fn alias_entry_resolves(m: &FunctionManager, i: int)
    requires
        m.wf(),
        0 <= i < m@.len(),
        m@[i].meta.version_alias is Some,
    ensures
        resolves_to(m@, m@[i].meta.name@, alias_of(m@[i].meta)->0, i),
{
    let fs = m@;
    assert(alias_slot(fs[i], fs[i].meta.name@, alias_of(fs[i].meta)->0));
}

/// Setting the same alias twice through a key that still names the function (its canonical
/// key, or the alias being set) leaves the registry as the first call left it.
pub proof fn modify_alias_idempotent(
    fs: Seq<Function>,
    name: Seq<char>,
    v: Seq<char>,
    i: int,
    a: Option<String>,
)
    requires
        registry_wf(fs),
        resolves_to(fs, name, v, i),
        canonical_slot(fs[i], name, v) || opt_view(a) == Some(v),
    ensures
        exists|j: int| resolves_to(alias_update(fs, i, a), name, v, j),
        forall|j: int|
            resolves_to(alias_update(fs, i, a), name, v, j) ==> alias_update(
                alias_update(fs, i, a),
                j,
                a,
            ) == alias_update(fs, i, a),
{
    let t = alias_update(fs, i, a);
    lemma_alias_update_wf(fs, i, a);
    if alias_of(fs[i].meta) == opt_view(a) {
        assert forall|j: int| resolves_to(t, name, v, j) implies alias_update(t, j, a) == t by {
            lemma_resolves_unique(t, name, v, i, j);
        }
        return;
    }
    let s = alias_set(fs, i, a);
    let n = fs[i].meta.name@;
    let rm = a is Some && canonical_other(fs, i, n, a->0@);
    let c = canonical_other_index(fs, i, n, a->0@);
    let j0 = if rm && c < i { i - 1 } else { i };
    assert(t[j0] == s[i]);
    assert(s[i] == with_alias(fs[i], a));
    if opt_view(a) == Some(v) {
        assert(alias_slot(t[j0], name, v));
    } else {
        assert forall|k: int| 0 <= k < t.len() implies !alias_slot(#[trigger] t[k], name, v) by {
            let kk = if rm && k >= c { k + 1 } else { k };
            assert(t[k] == s[kk]);
            if kk != i && alias_slot(s[kk], name, v) {
                assert(s[kk] == fs[kk]);
                assert(fs[kk].meta.version_alias is Some);
                assert(!canonical_slot(fs[i], fs[kk].meta.name@, alias_of(fs[kk].meta)->0));
            }
        }
        assert(canonical_slot(t[j0], name, v));
    }
    assert(resolves_to(t, name, v, j0));
    assert forall|j: int| resolves_to(t, name, v, j) implies alias_update(t, j, a) == t by {
        lemma_resolves_unique(t, name, v, j0, j);
        assert(alias_of(t[j0].meta) == opt_view(a));
    }
}

} // verus!
