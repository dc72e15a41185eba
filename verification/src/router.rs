//! The routing engine: which destinations are connected to directly, which
//! are tunnelled, and through which upstream server.

use vstd::prelude::*;
use crate::settings::{
    check_config, get_config, get_server_list, index_in_bounds, AppContext, Config, ConfigError,
    CoreConfig, DefaultMode, PatternGroup, Rule, ServerInfo,
};
use crate::text::{chars_of, find_first, lemma_first_index, same_text};

verus! {

/// Whether the regular expression `pattern` can be compiled and, where it
/// can, whether it matches somewhere in `haystack`.
pub uninterp spec fn regex_search(pattern: Seq<char>, haystack: Seq<char>) -> Option<bool>;

/// `Regex::new` of the crate `regex`, then `Regex::is_match` on what it
/// built: `None` where the pattern is refused, which happens to a malformed
/// one and to one whose program would be too large; else whether the
/// expression matches somewhere in `haystack`. Both are functions of the two
/// texts.
#[verifier::external_body]
fn regex_is_match(pattern: &str, haystack: &str) -> (out: Option<bool>)
    ensures
        out == regex_search(pattern@, haystack@),
{
    match regex::Regex::new(pattern) {
        Ok(re) => Some(re.is_match(haystack)),
        Err(_) => None,
    }
}

/// Whether `c` has a meaning of its own in a regular expression.
pub open spec fn is_meta_character(c: char) -> bool {
    c == '\\' || c == '.' || c == '+' || c == '*' || c == '?' || c == '(' || c == ')' || c == '|'
        || c == '[' || c == ']' || c == '{' || c == '}' || c == '^' || c == '$' || c == '#' || c
        == '&' || c == '-' || c == '~'
}

/// `text` with a backslash before each meta character.
pub open spec fn escape_text(text: Seq<char>) -> Seq<char>
    decreases text.len(),
{
    if text.len() == 0 {
        Seq::empty()
    } else if is_meta_character(text[0]) {
        seq!['\\', text[0]] + escape_text(text.drop_first())
    } else {
        seq![text[0]] + escape_text(text.drop_first())
    }
}

/// `regex::escape` of the crate `regex`: the text with a backslash before
/// each of its meta characters.
#[verifier::external_body]
fn regex_escape(text: &str) -> (out: String)
    ensures
        out@ == escape_text(text@),
{
    regex::escape(text)
}

/// `escaped` with each escaped star, read from the left, turned into `.*`.
pub open spec fn stars_replaced(escaped: Seq<char>) -> Seq<char>
    decreases escaped.len(),
{
    if escaped.len() >= 2 && escaped[0] == '\\' && escaped[1] == '*' {
        seq!['.', '*'] + stars_replaced(escaped.skip(2))
    } else if escaped.len() >= 1 {
        seq![escaped[0]] + stars_replaced(escaped.skip(1))
    } else {
        Seq::empty()
    }
}

/// The body of the regular expression for the host pattern `rule`: `.*` for
/// each star, every other meta character behind a backslash, and every other
/// character as it is.
pub open spec fn glob_body(rule: Seq<char>) -> Seq<char>
    decreases rule.len(),
{
    if rule.len() == 0 {
        Seq::empty()
    } else if rule[0] == '*' {
        seq!['.', '*'] + glob_body(rule.drop_first())
    } else if is_meta_character(rule[0]) {
        seq!['\\', rule[0]] + glob_body(rule.drop_first())
    } else {
        seq![rule[0]] + glob_body(rule.drop_first())
    }
}

/// The regular expression for the host pattern `rule`, anchored at both
/// ends.
pub open spec fn glob_regex(rule: Seq<char>) -> Seq<char> {
    seq!['^'] + glob_body(rule) + seq!['$']
}

/// Whether the host pattern `rule` matches `target`: a pattern with a star
/// as its regular expression does, the whole target against the whole
/// pattern and with regard to case; a pattern without one only where it is
/// the target. A pattern whose expression is refused matches nothing.
pub open spec fn pattern_matches(rule: Seq<char>, target: Seq<char>) -> bool {
    if rule.contains('*') {
        regex_search(glob_regex(rule), target) == Some(true)
    } else {
        rule == target
    }
}

/// An escaped text does not start with a star.
proof fn lemma_escape_starts(text: Seq<char>)
    ensures
        escape_text(text).len() > 0 ==> escape_text(text)[0] != '*',
{
}

/// Escaping a host pattern and then turning the escaped stars into `.*`
/// gives the body of its regular expression.
pub proof fn lemma_escape_then_replace(rule: Seq<char>)
    ensures
        stars_replaced(escape_text(rule)) == glob_body(rule),
    decreases rule.len(),
{
    if rule.len() == 0 {
        assert(escape_text(rule).len() == 0);
    } else {
        let c = rule[0];
        let rest = rule.drop_first();
        let tail = escape_text(rest);
        let all = escape_text(rule);
        lemma_escape_then_replace(rest);
        lemma_escape_starts(rest);
        if c == '*' {
            assert(all == seq!['\\', '*'] + tail);
            assert(all[0] == '\\' && all[1] == '*');
            assert(all.skip(2) =~= tail);
            assert(stars_replaced(all) == seq!['.', '*'] + stars_replaced(tail));
        } else if is_meta_character(c) {
            assert(all == seq!['\\', c] + tail);
            assert(all[0] == '\\' && all[1] == c);
            let inner = all.skip(1);
            assert(inner =~= seq![c] + tail);
            assert(stars_replaced(all) == seq!['\\'] + stars_replaced(inner));
            assert(inner[0] == c);
            if inner.len() >= 2 {
                assert(inner[1] == tail[0]);
            }
            assert(inner.skip(1) =~= tail);
            assert(stars_replaced(inner) == seq![c] + stars_replaced(tail));
            assert(seq!['\\'] + (seq![c] + stars_replaced(tail)) =~= seq!['\\', c]
                + stars_replaced(tail));
        } else {
            assert(all == seq![c] + tail);
            assert(all[0] == c);
            assert(all.skip(1) =~= tail);
            assert(stars_replaced(all) == seq![c] + stars_replaced(tail));
        }
    }
}

/// `escaped` with each escaped star turned into `.*`.
fn replace_escaped_stars(escaped: &[char]) -> (out: String)
    ensures
        out@ == stars_replaced(escaped@),
{
    let n = escaped.len();
    let mut out = String::new();
    let mut i: usize = 0;
    assert(escaped@.skip(0) == escaped@);
    while i < n
        invariant
            i <= n,
            n == escaped@.len(),
            stars_replaced(escaped@) == out@ + stars_replaced(escaped@.skip(i as int)),
        decreases n - i,
    {
        let ghost rest = escaped@.skip(i as int);
        if escaped[i] == '\\' && n - i >= 2 && escaped[i + 1] == '*' {
            assert(rest[0] == '\\' && rest[1] == '*');
            assert(rest.skip(2) == escaped@.skip(i + 2));
            out.push('.');
            out.push('*');
            assert(out@ + stars_replaced(escaped@.skip(i + 2)) == stars_replaced(escaped@));
            i += 2;
        } else {
            assert(rest[0] == escaped@[i as int]);
            assert(rest.len() >= 2 ==> rest[1] == escaped@[i + 1]);
            assert(rest.skip(1) == escaped@.skip(i + 1));
            out.push(escaped[i]);
            assert(out@ + stars_replaced(escaped@.skip(i + 1)) == stars_replaced(escaped@));
            i += 1;
        }
    }
    assert(stars_replaced(escaped@.skip(n as int)) == Seq::<char>::empty());
    out
}

/// The anchored regular expression for the host pattern `rule`.
pub fn glob_pattern(rule: &str) -> (out: String)
    ensures
        out@ == glob_regex(rule@),
{
    let escaped = regex_escape(rule);
    let body = replace_escaped_stars(chars_of(escaped.as_str()).as_slice());
    proof {
        lemma_escape_then_replace(rule@);
    }
    let mut out = String::new();
    out.push('^');
    out.append(body.as_str());
    out.push('$');
    assert(out@ == glob_regex(rule@));
    out
}

/// Whether the host pattern `rule` matches `target_addr`.
pub fn is_match(rule: &str, target_addr: &str) -> (b: bool)
    ensures
        b == pattern_matches(rule@, target_addr@),
{
    proof {
        lemma_first_index(rule@, '*');
    }
    match find_first(chars_of(rule).as_slice(), '*') {
        Some(at) => {
            assert(rule@[at as int] == '*');
            let pattern = glob_pattern(rule);
            match regex_is_match(pattern.as_str(), target_addr) {
                Some(found) => found,
                None => false,
            }
        },
        None => same_text(rule, target_addr),
    }
}

/// Whether one of the patterns of `group` matches `host`.
pub open spec fn group_matches(group: &PatternGroup, host: Seq<char>) -> bool {
    exists|i: int|
        0 <= i < group.patterns@.len() && pattern_matches((#[trigger] group.patterns@[i])@, host)
}

/// Whether one of the groups of `rule` matches `host`.
pub open spec fn rule_matches(rule: &Rule, host: Seq<char>) -> bool {
    exists|g: int| 0 <= g < rule.other@.len() && group_matches(#[trigger] &rule.other@[g], host)
}

/// Index of the first group that matches `host`.
pub open spec fn first_matching_group(groups: Seq<PatternGroup>, host: Seq<char>) -> Option<int>
    decreases groups.len(),
{
    if groups.len() == 0 {
        None
    } else if group_matches(&groups[0], host) {
        Some(0)
    } else {
        match first_matching_group(groups.drop_first(), host) {
            Some(i) => Some(i + 1),
            None => None,
        }
    }
}

/// Index of the first rule that matches `host`.
pub open spec fn first_matching_rule(rules: Seq<Rule>, host: Seq<char>) -> Option<int>
    decreases rules.len(),
{
    if rules.len() == 0 {
        None
    } else if rule_matches(&rules[0], host) {
        Some(0)
    } else {
        match first_matching_rule(rules.drop_first(), host) {
            Some(i) => Some(i + 1),
            None => None,
        }
    }
}

/// `first_matching_group` is the least index of a matching group, and `None`
/// exactly when no group matches.
pub proof fn lemma_first_matching_group(groups: Seq<PatternGroup>, host: Seq<char>)
    ensures
        match first_matching_group(groups, host) {
            Some(i) => 0 <= i < groups.len() && group_matches(&groups[i], host) && forall|j: int|
                0 <= j < i ==> !group_matches(#[trigger] &groups[j], host),
            None => forall|j: int|
                0 <= j < groups.len() ==> !group_matches(#[trigger] &groups[j], host),
        },
    decreases groups.len(),
{
    if groups.len() > 0 && !group_matches(&groups[0], host) {
        let rest = groups.drop_first();
        lemma_first_matching_group(rest, host);
        assert forall|j: int| 0 < j < groups.len() implies groups[j] == rest[j - 1] by {}
        match first_matching_group(rest, host) {
            Some(i) => {
                assert forall|j: int| 0 <= j < i + 1 implies !group_matches(
                    #[trigger] &groups[j],
                    host,
                ) by {
                    if j > 0 {
                        assert(groups[j] == rest[j - 1]);
                    }
                }
            },
            None => {
                assert forall|j: int| 0 <= j < groups.len() implies !group_matches(
                    #[trigger] &groups[j],
                    host,
                ) by {
                    if j > 0 {
                        assert(groups[j] == rest[j - 1]);
                    }
                }
            },
        }
    }
}

/// `first_matching_rule` is the least index of a matching rule, and `None`
/// exactly when no rule matches.
pub proof fn lemma_first_matching_rule(rules: Seq<Rule>, host: Seq<char>)
    ensures
        match first_matching_rule(rules, host) {
            Some(i) => 0 <= i < rules.len() && rule_matches(&rules[i], host) && forall|j: int|
                0 <= j < i ==> !rule_matches(#[trigger] &rules[j], host),
            None => forall|j: int| 0 <= j < rules.len() ==> !rule_matches(#[trigger] &rules[j], host),
        },
    decreases rules.len(),
{
    if rules.len() > 0 && !rule_matches(&rules[0], host) {
        let rest = rules.drop_first();
        lemma_first_matching_rule(rest, host);
        match first_matching_rule(rest, host) {
            Some(i) => {
                assert forall|j: int| 0 <= j < i + 1 implies !rule_matches(
                    #[trigger] &rules[j],
                    host,
                ) by {
                    if j > 0 {
                        assert(rules[j] == rest[j - 1]);
                    }
                }
            },
            None => {
                assert forall|j: int| 0 <= j < rules.len() implies !rule_matches(
                    #[trigger] &rules[j],
                    host,
                ) by {
                    if j > 0 {
                        assert(rules[j] == rest[j - 1]);
                    }
                }
            },
        }
    }
}

/// Whether `host` names this machine.
pub open spec fn is_loopback(host: Seq<char>) -> bool {
    host == seq!['1', '2', '7', '.', '0', '.', '0', '.', '1'] || host == seq![':', ':', '1']
        || host == seq!['l', 'o', 'c', 'a', 'l', 'h', 'o', 's', 't']
}

/// The label under which loopback destinations go direct.
pub open spec fn local_label() -> Seq<char> {
    seq!['l', 'o', 'c', 'a', 'l']
}

/// The label under which destinations go direct that no rule names.
pub open spec fn default_label() -> Seq<char> {
    seq!['d', 'e', 'f', 'a', 'u', 'l', 't']
}

/// The label under which `host` bypasses the tunnel: `local` for this
/// machine, else the label of the first direct group that matches.
pub open spec fn direct_label(core: &CoreConfig, host: Seq<char>) -> Option<Seq<char>> {
    if is_loopback(host) {
        Some(local_label())
    } else {
        match first_matching_group(core.direct@, host) {
            Some(g) => Some(core.direct@[g].label@),
            None => None,
        }
    }
}

/// The server index that the proxy rules give `host`: of the first rule with
/// a matching pattern its first candidate, or the default index where the
/// rule names none.
pub open spec fn selected_index(core: &CoreConfig, host: Seq<char>) -> Option<u16> {
    match first_matching_rule(core.proxy@, host) {
        Some(r) => if core.proxy@[r].select@.len() > 0 {
            Some(core.proxy@[r].select@[0])
        } else {
            Some(core.select@[0])
        },
        None => None,
    }
}

/// A routing decision, with the server by its index.
pub enum Route {
    Direct { label: Seq<char> },
    Proxy { index: u16 },
}

/// What becomes of a connection to `host`. This machine is always reached
/// directly. Where the default is to tunnel, the direct groups are asked
/// next. Then the proxy rules decide; where none matches, the default does.
pub open spec fn route(core: &CoreConfig, host: Seq<char>) -> Route {
    if is_loopback(host) {
        Route::Direct { label: local_label() }
    } else if core.default_mode == DefaultMode::Proxy && direct_label(core, host) is Some {
        Route::Direct { label: direct_label(core, host).unwrap() }
    } else {
        match selected_index(core, host) {
            Some(index) => Route::Proxy { index },
            None => if core.default_mode == DefaultMode::Proxy {
                Route::Proxy { index: core.select@[0] }
            } else {
                Route::Direct { label: default_label() }
            },
        }
    }
}

/// A destination that names this machine goes direct under the label
/// `local`, whatever the rules say.
pub proof fn lemma_loopback_is_local(core: &CoreConfig, host: Seq<char>)
    requires
        is_loopback(host),
    ensures
        route(core, host) == (Route::Direct { label: local_label() }),
{
}

/// A destination that names another machine and matches no direct group and
/// no proxy rule goes where the default says: to the default server, or
/// direct under the label `default`.
pub proof fn lemma_unmatched_takes_default(core: &CoreConfig, host: Seq<char>)
    requires
        !is_loopback(host),
        forall|g: int| 0 <= g < core.direct@.len() ==> !group_matches(&core.direct@[g], host),
        forall|r: int| 0 <= r < core.proxy@.len() ==> !rule_matches(&core.proxy@[r], host),
    ensures
        route(core, host) == if core.default_mode == DefaultMode::Proxy {
            Route::Proxy { index: core.select@[0] }
        } else {
            Route::Direct { label: default_label() }
        },
{
    lemma_first_matching_group(core.direct@, host);
    lemma_first_matching_rule(core.proxy@, host);
}

/// Whether one of the patterns of `group` matches `host`.
pub fn group_has_match(group: &PatternGroup, host: &str) -> (found: bool)
    ensures
        found == group_matches(group, host@),
{
    let mut i: usize = 0;
    while i < group.patterns.len()
        invariant
            i <= group.patterns@.len(),
            forall|j: int|
                0 <= j < i ==> !pattern_matches((#[trigger] group.patterns@[j])@, host@),
        decreases group.patterns@.len() - i,
    {
        if is_match(group.patterns[i].as_str(), host) {
            return true;
        }
        i += 1;
    }
    false
}

/// Whether one of the groups of `rule` matches `host`.
pub fn rule_has_match(rule: &Rule, host: &str) -> (found: bool)
    ensures
        found == rule_matches(rule, host@),
{
    let mut g: usize = 0;
    while g < rule.other.len()
        invariant
            g <= rule.other@.len(),
            forall|j: int| 0 <= j < g ==> !group_matches(#[trigger] &rule.other@[j], host@),
        decreases rule.other@.len() - g,
    {
        if group_has_match(&rule.other[g], host) {
            return true;
        }
        g += 1;
    }
    false
}

/// Whether `addr` names this machine.
pub fn addr_is_loopback(addr: &str) -> (b: bool)
    ensures
        b == is_loopback(addr@),
{
    proof {
        reveal_strlit("127.0.0.1");
        reveal_strlit("::1");
        reveal_strlit("localhost");
        assert("127.0.0.1"@ =~= seq!['1', '2', '7', '.', '0', '.', '0', '.', '1']);
        assert("::1"@ =~= seq![':', ':', '1']);
        assert("localhost"@ =~= seq!['l', 'o', 'c', 'a', 'l', 'h', 'o', 's', 't']);
    }
    same_text(addr, "127.0.0.1") || same_text(addr, "::1") || same_text(addr, "localhost")
}

/// The label under which `target_addr` bypasses the tunnel, if it does.
pub fn is_direct(context: &AppContext, target_addr: &str) -> (label: Option<String>)
    ensures
        match label {
            Some(text) => direct_label(&context.settings(), target_addr@) == Some(text@),
            None => direct_label(&context.settings(), target_addr@) is None,
        },
{
    if addr_is_loopback(target_addr) {
        let text = String::from_str("local");
        proof {
            reveal_strlit("local");
            assert(text@ =~= local_label());
        }
        return Some(text);
    }
    let config = get_config(context);
    let mut g: usize = 0;
    while g < config.direct.len()
        invariant
            g <= config.direct@.len(),
            !is_loopback(target_addr@),
            *config == context.settings(),
            forall|j: int|
                0 <= j < g ==> !group_matches(#[trigger] &config.direct@[j], target_addr@),
        decreases config.direct@.len() - g,
    {
        if group_has_match(&config.direct[g], target_addr) {
            proof {
                lemma_first_matching_group(config.direct@, target_addr@);
            }
            return Some(config.direct[g].label.clone());
        }
        g += 1;
    }
    proof {
        lemma_first_matching_group(config.direct@, target_addr@);
    }
    None
}

/// The outcome of routing a destination.
#[derive(Debug, Clone, PartialEq, Eq)]
pub enum Disposition<'a> {
    /// Connect to the destination itself; the label says why.
    Direct { label: String },
    /// Tunnel through this server.
    Proxy { server: &'a ServerInfo },
}

impl<'a> Disposition<'a> {
    /// Whether the disposition is the decision `route`, with the server taken
    /// from `pool`.
    pub open spec fn carries(self, route: Route, pool: &Config) -> bool {
        match (self, route) {
            (Disposition::Direct { label }, Route::Direct { label: text }) => label@ == text,
            (Disposition::Proxy { server }, Route::Proxy { index }) => index_in_bounds(
                index,
                pool.list@.len(),
            ) && *server == pool.list@[index - 1] && server.index == index,
            _ => false,
        }
    }
}

/// The routing engine over one checked configuration.
pub struct Router {
    context: AppContext,
}

impl Router {
    /// The configuration that the router decides by.
    pub closed spec fn context(self) -> AppContext {
        self.context
    }

    /// A router over `context`.
    pub fn new(context: AppContext) -> (router: Router)
        ensures
            router.context() == context,
    {
        Router { context }
    }

    /// Checks `core` against `pool` and makes the router over them.
    pub fn get_factory(core: CoreConfig, pool: Config) -> (out: Result<Router, ConfigError>)
        ensures
            match out {
                Ok(router) => check_config(&core, &pool) is Ok && router.context().settings()
                    == core && router.context().servers() == pool,
                Err(e) => check_config(&core, &pool) == Err::<(), _>(e),
            },
    {
        match AppContext::load(core, pool) {
            Ok(context) => Ok(Router::new(context)),
            Err(e) => Err(e),
        }
    }

    /// The configuration that the router decides by.
    pub fn get_context(&self) -> (context: &AppContext)
        ensures
            *context == self.context(),
    {
        &self.context
    }

    /// The index of the default upstream server.
    pub fn get_default_proxy_index(&self) -> (index: u16)
        ensures
            self.context().settings().select@.len() > 0,
            index == self.context().settings().select@[0],
            index_in_bounds(index, self.context().servers().list@.len()),
    {
        let config = get_config(&self.context);
        config.select[0]
    }

    /// The server index that the proxy rules give `target_addr`.
    pub fn select_index(&self, target_addr: &str) -> (index: Option<u16>)
        ensures
            index == selected_index(&self.context().settings(), target_addr@),
            index matches Some(i) ==> index_in_bounds(i, self.context().servers().list@.len()),
    {
        let config = get_config(&self.context);
        let mut r: usize = 0;
        while r < config.proxy.len()
            invariant
                r <= config.proxy@.len(),
                *config == self.context().settings(),
                check_config(&self.context().settings(), &self.context().servers()) is Ok,
                forall|j: int| 0 <= j < r ==> !rule_matches(#[trigger] &config.proxy@[j], target_addr@),
            decreases config.proxy@.len() - r,
        {
            if rule_has_match(&config.proxy[r], target_addr) {
                proof {
                    lemma_first_matching_rule(config.proxy@, target_addr@);
                }
                let rule = &config.proxy[r];
                let index: u16 = if rule.select.len() > 0 {
                    rule.select[0]
                } else {
                    self.get_default_proxy_index()
                };
                return Some(index);
            }
            r += 1;
        }
        proof {
            lemma_first_matching_rule(config.proxy@, target_addr@);
        }
        None
    }

    /// The server with the index `index`, which the pool has.
    fn server_at(&self, index: u16) -> (server: &ServerInfo)
        requires
            index_in_bounds(index, self.context().servers().list@.len()),
        ensures
            *server == self.context().servers().list@[index - 1],
            server.index == index,
    {
        let pool = get_server_list(&self.context);
        &pool.list[(index - 1) as usize]
    }

    /// The server with the index `index`, if the pool has one.
    pub fn get_info(&self, index: u16) -> (info: Option<&ServerInfo>)
        ensures
            match info {
                Some(server) => index_in_bounds(index, self.context().servers().list@.len())
                    && *server == self.context().servers().list@[index - 1] && server.index
                    == index,
                None => !index_in_bounds(index, self.context().servers().list@.len()),
            },
    {
        let pool = get_server_list(&self.context);
        if index == 0 || index as usize > pool.list.len() {
            None
        } else {
            Some(self.server_at(index))
        }
    }

    /// The server that the proxy rules give `target_addr`.
    pub fn get_server(&self, target_addr: &str) -> (info: Option<&ServerInfo>)
        ensures
            match (info, selected_index(&self.context().settings(), target_addr@)) {
                (Some(server), Some(index)) => index_in_bounds(
                    index,
                    self.context().servers().list@.len(),
                ) && *server == self.context().servers().list@[index - 1] && server.index == index,
                (None, None) => true,
                _ => false,
            },
    {
        match self.select_index(target_addr) {
            Some(index) => self.get_info(index),
            None => None,
        }
    }

    /// Decides what becomes of a connection to `addr`.
    pub fn do_route(&self, addr: &str) -> (out: Disposition<'_>)
        ensures
            out.carries(route(&self.context().settings(), addr@), &self.context().servers()),
            is_loopback(addr@) ==> (out matches Disposition::Direct { label } && label@
                == local_label()),
    {
        let proxy_mode = crate::settings::is_mode_default_proxy(&self.context);
        if addr_is_loopback(addr) || proxy_mode {
            match is_direct(&self.context, addr) {
                Some(label) => {
                    return Disposition::Direct { label };
                },
                None => {},
            }
        }
        match self.get_server(addr) {
            Some(server) => {
                return Disposition::Proxy { server };
            },
            None => {},
        }
        if proxy_mode {
            Disposition::Proxy { server: self.server_at(self.get_default_proxy_index()) }
        } else {
            let label = String::from_str("default");
            proof {
                reveal_strlit("default");
                assert(label@ =~= default_label());
            }
            Disposition::Direct { label }
        }
    }
}

} // verus!
