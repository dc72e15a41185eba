//! The configuration of the proxy: the pool of upstream servers, the routing
//! rules, and the check that makes a configuration fit for use.

use vstd::prelude::*;
use crate::text::same_text;

verus! {

/// What happens to a destination that no rule names.
#[derive(Debug, Clone, Copy, PartialEq, Eq, Structural)]
pub enum DefaultMode {
    /// It is tunnelled through the default upstream server.
    Proxy,
    /// It is connected to directly.
    Direct,
}

impl Default for DefaultMode {
    fn default() -> (mode: DefaultMode)
        ensures
            mode == DefaultMode::Proxy,
    {
        DefaultMode::Proxy
    }
}

/// One upstream Trojan server.
#[derive(Debug, Clone, PartialEq, Eq)]
pub struct ServerInfo {
    /// The protocol of the server; only `trojan` is usable.
    pub scheme: String,
    pub port: u16,
    pub query: String,
    pub host: String,
    /// The name under which the server is shown.
    pub name: String,
    /// The credential, in plain text.
    pub key: String,
    /// The server name to present in the TLS handshake.
    pub sni: String,
    /// The position of the server in its pool, counted from 1.
    pub index: u16,
}

/// The pool of upstream servers.
#[derive(Debug, Clone, PartialEq, Eq)]
pub struct Config {
    pub list: Vec<ServerInfo>,
    pub update_time: String,
}

/// Host patterns under one label.
#[derive(Debug, Clone, PartialEq, Eq)]
pub struct PatternGroup {
    pub label: String,
    pub patterns: Vec<String>,
}

/// One proxy rule: the servers it may use, the first being the one it uses,
/// and the pattern groups that select it.
#[derive(Debug, Clone, PartialEq, Eq)]
pub struct Rule {
    pub select: Vec<u16>,
    pub other: Vec<PatternGroup>,
}

/// The settings of the proxy.
#[derive(Debug, Clone, PartialEq, Eq)]
pub struct CoreConfig {
    /// Where the SOCKS5 front end listens.
    pub socks_bind: String,
    /// Where the HTTP front end listens.
    pub http_bind: String,
    pub default_mode: DefaultMode,
    /// The default upstream server first.
    pub select: Vec<u16>,
    /// The proxy rules, in the order in which they are tried.
    pub proxy: Vec<Rule>,
    /// The groups of hosts that are never tunnelled, in the order in which
    /// they are tried.
    pub direct: Vec<PatternGroup>,
}

/// Why a configuration is refused.
#[derive(Debug, Clone, Copy, PartialEq, Eq, Structural)]
pub enum ConfigError {
    /// A server of the pool stores another index than its position.
    IndexMismatch,
    /// No default upstream server is named.
    MissingDefault,
    /// A server index is zero or beyond the pool.
    IndexOutOfBounds,
    /// A server that is referred to has another scheme than `trojan`.
    WrongScheme,
    /// Two pattern groups of one table have the same label.
    DuplicateLabel,
}

/// The scheme of a usable server.
pub open spec fn trojan_scheme() -> Seq<char> {
    seq!['t', 'r', 'o', 'j', 'a', 'n']
}

/// Whether every server of the pool stores its position, counted from 1.
pub open spec fn pool_in_order(pool: &Config) -> bool {
    forall|i: int| 0 <= i < pool.list@.len() ==> (#[trigger] pool.list@[i]).index == i + 1
}

/// Whether `index` names a server of a pool of `size` servers.
pub open spec fn index_in_bounds(index: u16, size: nat) -> bool {
    1 <= index <= size
}

/// Whether every index of `select` names a server of a pool of `size`
/// servers.
pub open spec fn select_in_bounds(select: Seq<u16>, size: nat) -> bool {
    forall|k: int| 0 <= k < select.len() ==> index_in_bounds(#[trigger] select[k], size)
}

/// Whether every server index of the settings, the default ones and those of
/// the rules, names a server of the pool.
pub open spec fn indices_in_bounds(core: &CoreConfig, pool: &Config) -> bool {
    &&& select_in_bounds(core.select@, pool.list@.len())
    &&& forall|r: int|
        0 <= r < core.proxy@.len() ==> select_in_bounds(
            (#[trigger] core.proxy@[r]).select@,
            pool.list@.len(),
        )
}

/// Whether every server that `select` names has the scheme `trojan`.
pub open spec fn select_is_trojan(select: Seq<u16>, pool: &Config) -> bool {
    forall|k: int|
        0 <= k < select.len() ==> pool.list@[(#[trigger] select[k]) - 1].scheme@ == trojan_scheme()
}

/// Whether every server that the settings refer to has the scheme `trojan`.
pub open spec fn schemes_are_trojan(core: &CoreConfig, pool: &Config) -> bool {
    &&& select_is_trojan(core.select@, pool)
    &&& forall|r: int|
        0 <= r < core.proxy@.len() ==> select_is_trojan((#[trigger] core.proxy@[r]).select@, pool)
}

/// Whether no two groups have the same label.
pub open spec fn labels_distinct(groups: Seq<PatternGroup>) -> bool {
    forall|i: int, j: int|
        0 <= i < j < groups.len() ==> (#[trigger] groups[i]).label@ != (#[trigger] groups[j]).label@
}

/// Whether no table of pattern groups, that of the direct groups or that of a
/// rule, holds a label twice.
pub open spec fn tables_distinct(core: &CoreConfig) -> bool {
    &&& labels_distinct(core.direct@)
    &&& forall|r: int|
        0 <= r < core.proxy@.len() ==> labels_distinct((#[trigger] core.proxy@[r]).other@)
}

/// The verdict on a configuration: the first of the five checks that fails,
/// in this order.
pub open spec fn check_config(core: &CoreConfig, pool: &Config) -> Result<(), ConfigError> {
    if !pool_in_order(pool) {
        Err(ConfigError::IndexMismatch)
    } else if core.select@.len() == 0 {
        Err(ConfigError::MissingDefault)
    } else if !indices_in_bounds(core, pool) {
        Err(ConfigError::IndexOutOfBounds)
    } else if !schemes_are_trojan(core, pool) {
        Err(ConfigError::WrongScheme)
    } else if !tables_distinct(core) {
        Err(ConfigError::DuplicateLabel)
    } else {
        Ok(())
    }
}

/// A pool with a server that stores another index than its position is
/// refused, whatever the settings hold.
pub proof fn lemma_misplaced_server_refused(core: &CoreConfig, pool: &Config, position: int)
    requires
        0 <= position < pool.list@.len(),
        pool.list@[position].index != position + 1,
    ensures
        check_config(core, pool) == Err::<(), _>(ConfigError::IndexMismatch),
{
}

fn pool_is_in_order(pool: &Config) -> (ok: bool)
    ensures
        ok == pool_in_order(pool),
{
    let mut i: usize = 0;
    while i < pool.list.len()
        invariant
            i <= pool.list@.len(),
            forall|j: int| 0 <= j < i ==> (#[trigger] pool.list@[j]).index == j + 1,
        decreases pool.list@.len() - i,
    {
        if i >= 65535 || pool.list[i].index != (i + 1) as u16 {
            assert(pool.list@[i as int].index != i + 1);
            return false;
        }
        i += 1;
    }
    true
}

fn select_is_in_bounds(select: &Vec<u16>, size: usize) -> (ok: bool)
    ensures
        ok == select_in_bounds(select@, size as nat),
{
    let mut k: usize = 0;
    while k < select.len()
        invariant
            k <= select@.len(),
            forall|j: int| 0 <= j < k ==> index_in_bounds(#[trigger] select@[j], size as nat),
        decreases select@.len() - k,
    {
        if select[k] == 0 || select[k] as usize > size {
            assert(!index_in_bounds(select@[k as int], size as nat));
            return false;
        }
        k += 1;
    }
    true
}

fn all_in_bounds(core: &CoreConfig, pool: &Config) -> (ok: bool)
    ensures
        ok == indices_in_bounds(core, pool),
{
    let size = pool.list.len();
    if !select_is_in_bounds(&core.select, size) {
        return false;
    }
    let mut r: usize = 0;
    while r < core.proxy.len()
        invariant
            r <= core.proxy@.len(),
            size == pool.list@.len(),
            forall|j: int|
                0 <= j < r ==> select_in_bounds((#[trigger] core.proxy@[j]).select@, size as nat),
        decreases core.proxy@.len() - r,
    {
        if !select_is_in_bounds(&core.proxy[r].select, size) {
            return false;
        }
        r += 1;
    }
    true
}

fn select_has_trojan(select: &Vec<u16>, pool: &Config) -> (ok: bool)
    requires
        select_in_bounds(select@, pool.list@.len()),
    ensures
        ok == select_is_trojan(select@, pool),
{
    proof {
        reveal_strlit("trojan");
        assert("trojan"@ =~= trojan_scheme());
    }
    let mut k: usize = 0;
    while k < select.len()
        invariant
            k <= select@.len(),
            select_in_bounds(select@, pool.list@.len()),
            "trojan"@ == trojan_scheme(),
            forall|j: int|
                0 <= j < k ==> pool.list@[(#[trigger] select@[j]) - 1].scheme@ == trojan_scheme(),
        decreases select@.len() - k,
    {
        assert(index_in_bounds(select@[k as int], pool.list@.len()));
        let at: usize = (select[k] - 1) as usize;
        if !same_text(pool.list[at].scheme.as_str(), "trojan") {
            return false;
        }
        k += 1;
    }
    true
}

fn all_trojan(core: &CoreConfig, pool: &Config) -> (ok: bool)
    requires
        indices_in_bounds(core, pool),
    ensures
        ok == schemes_are_trojan(core, pool),
{
    if !select_has_trojan(&core.select, pool) {
        return false;
    }
    let mut r: usize = 0;
    while r < core.proxy.len()
        invariant
            r <= core.proxy@.len(),
            indices_in_bounds(core, pool),
            forall|j: int|
                0 <= j < r ==> select_is_trojan((#[trigger] core.proxy@[j]).select@, pool),
        decreases core.proxy@.len() - r,
    {
        if !select_has_trojan(&core.proxy[r].select, pool) {
            return false;
        }
        r += 1;
    }
    true
}

fn labels_are_distinct(groups: &Vec<PatternGroup>) -> (ok: bool)
    ensures
        ok == labels_distinct(groups@),
{
    let mut j: usize = 0;
    while j < groups.len()
        invariant
            j <= groups@.len(),
            forall|a: int, b: int|
                0 <= a < b < j ==> (#[trigger] groups@[a]).label@ != (#[trigger] groups@[b]).label@,
        decreases groups@.len() - j,
    {
        let mut i: usize = 0;
        while i < j
            invariant
                i <= j < groups@.len(),
                forall|a: int|
                    0 <= a < i ==> (#[trigger] groups@[a]).label@ != groups@[j as int].label@,
            decreases j - i,
        {
            if same_text(groups[i].label.as_str(), groups[j].label.as_str()) {
                return false;
            }
            i += 1;
        }
        j += 1;
    }
    true
}

fn all_distinct(core: &CoreConfig) -> (ok: bool)
    ensures
        ok == tables_distinct(core),
{
    if !labels_are_distinct(&core.direct) {
        return false;
    }
    let mut r: usize = 0;
    while r < core.proxy.len()
        invariant
            r <= core.proxy@.len(),
            forall|j: int| 0 <= j < r ==> labels_distinct((#[trigger] core.proxy@[j]).other@),
        decreases core.proxy@.len() - r,
    {
        if !labels_are_distinct(&core.proxy[r].other) {
            return false;
        }
        r += 1;
    }
    true
}

/// Checks the settings against the pool.
pub fn validate(core: &CoreConfig, pool: &Config) -> (out: Result<(), ConfigError>)
    ensures
        out == check_config(core, pool),
{
    if !pool_is_in_order(pool) {
        Err(ConfigError::IndexMismatch)
    } else if core.select.len() == 0 {
        Err(ConfigError::MissingDefault)
    } else if !all_in_bounds(core, pool) {
        Err(ConfigError::IndexOutOfBounds)
    } else if !all_trojan(core, pool) {
        Err(ConfigError::WrongScheme)
    } else if !all_distinct(core) {
        Err(ConfigError::DuplicateLabel)
    } else {
        Ok(())
    }
}

/// Settings and pool that passed the check, to be shared read-only by
/// everything that routes or dials.
pub struct AppContext {
    core: CoreConfig,
    pool: Config,
}

impl AppContext {
    #[verifier::type_invariant]
    spec fn checked(self) -> bool {
        check_config(&self.core, &self.pool) is Ok
    }

    /// The settings.
    pub closed spec fn settings(self) -> CoreConfig {
        self.core
    }

    /// The pool.
    pub closed spec fn servers(self) -> Config {
        self.pool
    }

    /// Checks `core` against `pool` and, where nothing is wrong, keeps both.
    pub fn load(core: CoreConfig, pool: Config) -> (out: Result<AppContext, ConfigError>)
        ensures
            match out {
                Ok(context) => check_config(&core, &pool) is Ok && context.settings() == core
                    && context.servers() == pool,
                Err(e) => check_config(&core, &pool) == Err::<(), _>(e),
            },
    {
        match validate(&core, &pool) {
            Ok(()) => Ok(AppContext { core, pool }),
            Err(e) => Err(e),
        }
    }
}

/// The settings of a context, which pass the check against its pool.
pub fn get_config(context: &AppContext) -> (core: &CoreConfig)
    ensures
        *core == context.settings(),
        check_config(&context.settings(), &context.servers()) is Ok,
{
    proof {
        use_type_invariant(context);
    }
    &context.core
}

/// The pool of a context, against which its settings pass the check.
pub fn get_server_list(context: &AppContext) -> (pool: &Config)
    ensures
        *pool == context.servers(),
        check_config(&context.settings(), &context.servers()) is Ok,
{
    proof {
        use_type_invariant(context);
    }
    &context.pool
}

/// Whether destinations that no rule names are tunnelled.
pub fn is_mode_default_proxy(context: &AppContext) -> (b: bool)
    ensures
        b == (context.settings().default_mode == DefaultMode::Proxy),
{
    context.core.default_mode == DefaultMode::Proxy
}

/// A table without pattern groups.
pub fn default_direct() -> (groups: Vec<PatternGroup>)
    ensures
        groups@.len() == 0,
{
    Vec::new()
}

/// The empty text, the default of every text field that may be left out.
pub fn default_scheme() -> (text: String)
    ensures
        text@.len() == 0,
{
    String::new()
}

impl DefaultMode {
    /// The name of the mode in the settings.
    pub open spec fn name_text(self) -> Seq<char> {
        match self {
            DefaultMode::Proxy => "proxy"@,
            DefaultMode::Direct => "direct"@,
        }
    }

    /// The name of the mode in the settings.
    pub fn name(&self) -> (out: String)
        ensures
            out@ == self.name_text(),
    {
        match self {
            DefaultMode::Proxy => "proxy".to_owned(),
            DefaultMode::Direct => "direct".to_owned(),
        }
    }
}

impl ConfigError {
    /// The error in words.
    pub open spec fn message_text(self) -> Seq<char> {
        match self {
            ConfigError::IndexMismatch => "server index check failed"@,
            ConfigError::MissingDefault => "not found default_backend index: 0"@,
            ConfigError::IndexOutOfBounds => "index out of bounds"@,
            ConfigError::WrongScheme => "server scheme check failed"@,
            ConfigError::DuplicateLabel => "duplicate rule label"@,
        }
    }

    /// The error in words, for a log line.
    pub fn message(&self) -> (out: String)
        ensures
            out@ == self.message_text(),
    {
        match self {
            ConfigError::IndexMismatch => "server index check failed".to_owned(),
            ConfigError::MissingDefault => "not found default_backend index: 0".to_owned(),
            ConfigError::IndexOutOfBounds => "index out of bounds".to_owned(),
            ConfigError::WrongScheme => "server scheme check failed".to_owned(),
            ConfigError::DuplicateLabel => "duplicate rule label".to_owned(),
        }
    }
}

} // verus!
