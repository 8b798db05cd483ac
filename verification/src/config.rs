//! The settings of the orchestrator, and the addresses and paths that follow from them.
use vstd::prelude::*;
use vstd::string::*;
use crate::text::{decimal, push_decimal, same, texts};

verus! {

/// The least place from `k` on at which a text holds a pattern; the length where there is none.
pub open spec fn place_from(s: Seq<char>, pat: Seq<char>, k: int) -> int
    decreases s.len() - k,
{
    if k < 0 || k >= s.len() || k + pat.len() > s.len() {
        s.len() as int
    } else if s.subrange(k, k + pat.len() as int) == pat {
        k
    } else {
        place_from(s, pat, k + 1)
    }
}

/// What stands before the first place of a pattern; the whole text where there is none.
pub open spec fn before(s: Seq<char>, pat: Seq<char>) -> Seq<char> {
    s.take(place_from(s, pat, 0))
}

/// A text without a pattern at its start, however often it stands there.
pub open spec fn without_start(s: Seq<char>, pat: Seq<char>) -> Seq<char>
    decreases s.len(),
{
    if pat.len() > 0 && pat.is_prefix_of(s) {
        without_start(s.skip(pat.len() as int), pat)
    } else {
        s
    }
}

/// Whether a text holds a pattern at a place.
fn holds_at(s: &str, pat: &str, k: usize) -> (r: bool)
    requires
        k + pat@.len() <= s@.len(),
    ensures
        r == (s@.subrange(k as int, k + pat@.len() as int) == pat@),
{
    let n = pat.unicode_len();
    let len = s.unicode_len();
    let mut i: usize = 0;
    let ghost part = s@.subrange(k as int, k + pat@.len() as int);
    while i < n
        invariant
            i <= n,
            n == pat@.len(),
            len == s@.len(),
            k + n <= s@.len(),
            part == s@.subrange(k as int, k + pat@.len() as int),
            forall|m: int| 0 <= m < i ==> part[m] == pat@[m],
        decreases n - i,
    {
        if s.get_char(k + i) != pat.get_char(i) {
            assert(part[i as int] != pat@[i as int]);
            return false;
        }
        i = i + 1;
    }
    assert(part =~= pat@);
    true
}

/// Finds the first place of a pattern from `k` on.
fn find_place(s: &str, pat: &str, k: usize) -> (r: usize)
    requires
        k <= s@.len(),
        pat@.len() > 0,
    ensures
        r == place_from(s@, pat@, k as int),
        k <= r <= s@.len(),
{
    let len = s.unicode_len();
    let n = pat.unicode_len();
    let mut i: usize = k;
    while i <= len && n <= len - i
        invariant
            k <= i <= len,
            len == s@.len(),
            n == pat@.len(),
            n > 0,
            place_from(s@, pat@, i as int) == place_from(s@, pat@, k as int),
        decreases len - i,
    {
        if holds_at(s, pat, i) {
            return i;
        }
        i = i + 1;
    }
    len
}

/// Cuts a text before the first place of a pattern.
fn cut_before<'a>(s: &'a str, pat: &str) -> (r: &'a str)
    requires
        pat@.len() > 0,
    ensures
        r@ == before(s@, pat@),
{
    let k = find_place(s, pat, 0);
    let r = s.substring_char(0, k);
    assert(r@ =~= s@.take(k as int));
    r
}

/// Takes a pattern off the start of a text.
fn strip_start<'a>(s: &'a str, pat: &str) -> (r: &'a str)
    requires
        pat@.len() > 0,
    ensures
        r@ == without_start(s@, pat@),
    decreases s@.len(),
{
    let len = s.unicode_len();
    let n = pat.unicode_len();
    if n <= len && holds_at(s, pat, 0) {
        assert(pat@.is_prefix_of(s@));
        let rest = s.substring_char(n, len);
        assert(rest@ =~= s@.skip(n as int));
        return strip_start(rest, pat);
    }
    proof {
        if pat@.is_prefix_of(s@) {
            assert(s@.subrange(0, pat@.len() as int) =~= pat@);
        }
    }
    s
}

/// A path below a directory. An absolute part stands for itself, and an empty directory adds
/// nothing.
pub open spec fn path_below(dir: Seq<char>, part: Seq<char>) -> Seq<char> {
    if part.len() > 0 && part[0] == '/' {
        part
    } else if dir.len() == 0 || dir.last() == '/' {
        dir + part
    } else {
        dir + "/"@ + part
    }
}

/// Joins a directory and a part.
pub fn join_path(dir: &String, part: &str) -> (r: String)
    ensures
        r@ == path_below(dir@, part@),
{
    let n = dir.as_str().unicode_len();
    if part.unicode_len() > 0 && part.get_char(0) == '/' {
        return part.to_string();
    }
    let mut out = dir.clone();
    if n > 0 && dir.as_str().get_char(n - 1) != '/' {
        out.append("/");
    }
    out.append(part);
    assert(out@ =~= path_below(dir@, part@));
    out
}

/// Whether a character is white space, as Unicode has it.
pub uninterp spec fn whitespace(c: char) -> bool;

/// `char::is_whitespace` of std: whether a character has the Unicode property White_Space.
/// The contract gives the answer a name and claims that it depends on the character alone;
/// the plain space and the one that does not break have the property.
#[verifier::external_body]
fn is_space(c: char) -> (r: bool)
    ensures
        r == whitespace(c),
        c == ' ' || c == '\u{a0}' ==> r,
{
    c.is_whitespace()
}

/// A text without white space at its start.
pub open spec fn trimmed_start(s: Seq<char>) -> Seq<char>
    decreases s.len(),
{
    if s.len() > 0 && whitespace(s[0]) {
        trimmed_start(s.skip(1))
    } else {
        s
    }
}

/// A text without white space at its end.
pub open spec fn trimmed_end(s: Seq<char>) -> Seq<char>
    decreases s.len(),
{
    if s.len() > 0 && whitespace(s.last()) {
        trimmed_end(s.drop_last())
    } else {
        s
    }
}

/// Takes the white space off both ends.
fn trim(s: &str) -> (r: &str)
    ensures
        r@ == trimmed_end(trimmed_start(s@)),
{
    let len = s.unicode_len();
    let mut a: usize = 0;
    assert(s@.skip(0) =~= s@);
    while a < len && is_space(s.get_char(a))
        invariant
            a <= len,
            len == s@.len(),
            trimmed_start(s@.skip(a as int)) == trimmed_start(s@),
        decreases len - a,
    {
        assert(s@.skip(a as int).skip(1) =~= s@.skip(a + 1));
        a = a + 1;
    }
    let ghost t = trimmed_start(s@);
    assert(t == s@.skip(a as int)) by {
        if a < len {
            assert(s@.skip(a as int)[0] == s@[a as int]);
        }
    }
    let mut b: usize = len;
    assert(s@.subrange(a as int, len as int) =~= t);
    while b > a && is_space(s.get_char(b - 1))
        invariant
            a <= b <= len,
            len == s@.len(),
            trimmed_end(s@.subrange(a as int, b as int)) == trimmed_end(t),
        decreases b,
    {
        assert(s@.subrange(a as int, b as int).drop_last() =~= s@.subrange(a as int, b - 1));
        b = b - 1;
    }
    proof {
        if b > a {
            assert(s@.subrange(a as int, b as int).last() == s@[b - 1]);
        }
    }
    s.substring_char(a, b)
}

/// The parts of a text between colons.
pub open spec fn pieces(s: Seq<char>) -> Seq<Seq<char>>
    decreases s.len(),
{
    let k = place_from(s, ":"@, 0);
    if 0 <= k < s.len() {
        seq![s.take(k)] + pieces(s.skip(k + 1))
    } else {
        seq![s]
    }
}

/// Parts without the white space around them; those with nothing else are left out.
pub open spec fn filled(p: Seq<Seq<char>>) -> Seq<Seq<char>>
    decreases p.len(),
{
    if p.len() == 0 {
        Seq::empty()
    } else {
        let t = trimmed_end(trimmed_start(p.last()));
        if t.len() == 0 {
            filled(p.drop_last())
        } else {
            filled(p.drop_last()).push(t)
        }
    }
}

/// The library paths that a colon-separated list names.
pub open spec fn libset_of(raw: Seq<char>) -> Seq<Seq<char>> {
    filled(pieces(raw))
}

proof fn lemma_filled_add(a: Seq<Seq<char>>, b: Seq<Seq<char>>)
    ensures
        filled(a + b) == filled(a) + filled(b),
    decreases b.len(),
{
    if b.len() == 0 {
        assert(a + b =~= a);
        assert(filled(a) + filled(b) =~= filled(a));
    } else {
        lemma_filled_add(a, b.drop_last());
        assert((a + b).drop_last() =~= a + b.drop_last());
        assert((a + b).last() == b.last());
        assert(filled(a + b) =~= filled(a) + filled(b));
    }
}

/// Reads a colon-separated list of library paths.
pub fn parse_libset(raw: &str) -> (r: Vec<String>)
    ensures
        texts(r@) == libset_of(raw@),
    decreases raw@.len(),
{
    proof {
        reveal_strlit(":");
    }
    let len = raw.unicode_len();
    let k = find_place(raw, ":", 0);
    let head = raw.substring_char(0, k);
    assert(head@ =~= raw@.take(k as int));
    let t = trim(head);
    let mut out: Vec<String> = Vec::new();
    if t.unicode_len() > 0 {
        out.push(t.to_string());
    }
    let ghost one = seq![raw@.take(k as int)];
    assert(texts(out@) =~= filled(one)) by {
        assert(one.drop_last() =~= Seq::empty());
        reveal_with_fuel(filled, 2);
    }
    if k < len {
        let rest = raw.substring_char(k + 1, len);
        assert(rest@ =~= raw@.skip(k + 1));
        let mut more = parse_libset(rest);
        let ghost a = texts(out@);
        let ghost b = texts(more@);
        out.append(&mut more);
        proof {
            lemma_filled_add(one, pieces(raw@.skip(k + 1)));
            assert(texts(out@) =~= a + b);
        }
    } else {
        assert(raw@.take(k as int) =~= raw@);
    }
    out
}

/// The number that decimal digits give.
pub open spec fn digits_number(s: Seq<char>) -> Option<nat>
    decreases s.len(),
{
    if s.len() == 0 {
        Some(0)
    } else {
        match digits_number(s.drop_last()) {
            Some(n) => if '0' <= s.last() && s.last() <= '9' {
                Some((10 * n + (s.last() as u32 - '0' as u32)) as nat)
            } else {
                None
            },
            None => None,
        }
    }
}

/// The number that a text writes in decimal digits, with an optional plus sign; it must fit
/// in 64 bits.
pub open spec fn number_of(s: Seq<char>) -> Option<u64> {
    let d = if s.len() > 0 && s[0] == '+' {
        s.skip(1)
    } else {
        s
    };
    if d.len() == 0 {
        None
    } else {
        match digits_number(d) {
            Some(n) => if n <= u64::MAX {
                Some(n as u64)
            } else {
                None
            },
            None => None,
        }
    }
}

proof fn lemma_digits_prefix(s: Seq<char>, k: int)
    requires
        0 <= k <= s.len(),
    ensures
        digits_number(s.take(k)) is None ==> digits_number(s) is None,
        digits_number(s) is Some ==> digits_number(s.take(k))->0 <= digits_number(s)->0,
    decreases s.len() - k,
{
    if k < s.len() {
        lemma_digits_prefix(s, k + 1);
        assert(s.take(k + 1).drop_last() =~= s.take(k));
    } else {
        assert(s.take(k) =~= s);
    }
}

/// The value of a decimal digit.
fn digit_value(c: char) -> (r: Option<u64>)
    ensures
        r == if '0' <= c && c <= '9' {
            Some((c as u32 - '0' as u32) as u64)
        } else {
            None
        },
{
    if '0' <= c && c <= '9' {
        Some((c as u32 - '0' as u32) as u64)
    } else {
        None
    }
}

/// Reads a number in decimal digits.
pub fn parse_number(s: &str) -> (r: Option<u64>)
    ensures
        r == number_of(s@),
{
    let len = s.unicode_len();
    let start: usize = if len > 0 && s.get_char(0) == '+' {
        1
    } else {
        0
    };
    let ghost d = s@.skip(start as int);
    assert(start == 0 ==> d =~= s@);
    if start == len {
        return None;
    }
    let mut n: u64 = 0;
    let mut i: usize = start;
    assert(d.take(0) =~= Seq::empty());
    while i < len
        invariant
            start <= i <= len,
            len == s@.len(),
            d == s@.skip(start as int),
            digits_number(d.take(i - start)) == Some(n as nat),
            d.len() > 0,
            number_of(s@) == (match digits_number(d) {
                Some(n) => if n <= u64::MAX {
                    Some(n as u64)
                } else {
                    None
                },
                None => None,
            }),
        decreases len - i,
    {
        let ghost k = i - start;
        assert(d.take(k + 1).drop_last() =~= d.take(k));
        assert(d.take(k + 1).last() == s@[i as int]);
        proof {
            lemma_digits_prefix(d, k + 1);
        }
        match digit_value(s.get_char(i)) {
            None => {
                return None;
            },
            Some(v) => {
                if n > (u64::MAX - v) / 10 {
                    return None;
                }
                n = 10 * n + v;
            },
        }
        i = i + 1;
    }
    assert(d.take(d.len() as int) =~= d);
    Some(n)
}

/// What the environment says of the settings; absent where a variable is not set.
pub struct Vars {
    pub url: Option<String>,
    pub dir_root: Option<String>,
    pub hang_timeout_ms: Option<String>,
    pub activity_min_ms: Option<String>,
    pub keep_workspaces: Option<String>,
    pub libset: Option<String>,
    pub runner_script: Option<String>,
    pub rscript: Option<String>,
    pub spawn_timeout_ms: Option<String>,
    pub park_timeout_ms: Option<String>,
}

/// The settings of the runner provisioner.
#[derive(Debug, Clone, PartialEq, Eq)]
pub struct ProvisionerConfig {
    /// The library paths that are scanned for modules.
    pub libset: Vec<String>,
    /// The script that a runner is started with.
    pub runner_script: String,
    /// The interpreter of that script.
    pub rscript_bin: String,
    /// How long a started runner may take to register.
    pub spawn_timeout_ms: u64,
    /// How long work may wait for a runner.
    pub park_timeout_ms: u64,
}

/// The settings of the orchestrator.
#[derive(Debug, Clone, PartialEq, Eq)]
pub struct Config {
    pub control_url: String,
    pub dataset_path: String,
    pub orchestrator_dir_root: String,
    pub hang_timeout_ms: u64,
    pub activity_min_ms: u64,
    /// Workspaces are kept for inspection.
    pub keep_workspaces: bool,
    /// Present where runners are started on demand.
    pub provisioner: Option<ProvisionerConfig>,
}

/// A setting, or its default.
pub open spec fn text_setting(v: Option<String>, default: Seq<char>) -> Seq<char> {
    match v {
        Some(t) => t@,
        None => default,
    }
}

/// A number setting; one that is no number counts as absent.
pub open spec fn number_setting(v: Option<String>, default: u64) -> u64 {
    match v {
        Some(t) => match number_of(t@) {
            Some(n) => n,
            None => default,
        },
        None => default,
    }
}

fn text_or(v: &Option<String>, default: &str) -> (r: String)
    ensures
        r@ == text_setting(*v, default@),
{
    match v {
        Some(t) => t.clone(),
        None => default.to_string(),
    }
}

fn number_or(v: &Option<String>, default: u64) -> (r: u64)
    ensures
        r == number_setting(*v, default),
{
    match v {
        Some(t) => match parse_number(t.as_str()) {
            Some(n) => n,
            None => default,
        },
        None => default,
    }
}

impl ProvisionerConfig {
    /// The settings of the provisioner; none unless some library path is named.
    pub fn from_vars(vars: &Vars) -> (r: Option<ProvisionerConfig>)
        ensures
            match r {
                Some(p) => {
                    &&& vars.libset is Some
                    &&& texts(p.libset@) == libset_of(vars.libset->0@)
                    &&& p.libset@.len() > 0
                    &&& p.runner_script@ == text_setting(
                        vars.runner_script,
                        "refactor_design/runner_jaspbase.R"@,
                    )
                    &&& p.rscript_bin@ == text_setting(vars.rscript, "Rscript"@)
                    &&& p.spawn_timeout_ms == number_setting(vars.spawn_timeout_ms, 120_000)
                    &&& p.park_timeout_ms == number_setting(vars.park_timeout_ms, 180_000)
                },
                None => vars.libset is Some ==> libset_of(vars.libset->0@).len() == 0,
            },
    {
        let libset = match &vars.libset {
            Some(raw) => parse_libset(raw.as_str()),
            None => {
                return None;
            },
        };
        assert(texts(libset@).len() == libset@.len());
        if libset.len() == 0 {
            return None;
        }
        Some(
            ProvisionerConfig {
                libset,
                runner_script: text_or(&vars.runner_script, "refactor_design/runner_jaspbase.R"),
                rscript_bin: text_or(&vars.rscript, "Rscript"),
                spawn_timeout_ms: number_or(&vars.spawn_timeout_ms, 120_000),
                park_timeout_ms: number_or(&vars.park_timeout_ms, 180_000),
            },
        )
    }
}

/// The scheme of the control address.
pub open spec fn scheme_of(url: Seq<char>) -> Seq<char> {
    before(url, "://"@)
}

/// The host at the start of an address: what stands in brackets, with them, or what stands
/// before the first colon.
pub open spec fn host_part(rest: Seq<char>) -> Seq<char> {
    let close = place_from(rest, "]"@, 0);
    if rest.len() > 0 && rest[0] == '[' && close < rest.len() {
        rest.take(close + 1)
    } else {
        before(rest, ":"@)
    }
}

/// The host of a TCP control address.
pub open spec fn host_of(url: Seq<char>) -> Seq<char> {
    let h = host_part(without_start(url, "tcp://"@));
    if h.len() == 0 {
        "127.0.0.1"@
    } else {
        h
    }
}

/// The directory of a revision's results: below the root, the session and the work unit.
pub open spec fn results_dir(
    root: Seq<char>,
    session: Seq<char>,
    work_id: Seq<char>,
    revision: u64,
) -> Seq<char> {
    path_below(
        path_below(path_below(root, session), work_id),
        "results_"@ + decimal(revision as nat),
    )
}

impl Config {
    /// The settings that the environment gives.
    pub fn from_vars(vars: &Vars, dataset_path: String) -> (r: Config)
        ensures
            r.control_url@ == text_setting(vars.url, "tcp://127.0.0.1:9555"@),
            r.dataset_path == dataset_path,
            r.orchestrator_dir_root@ == text_setting(vars.dir_root, "/tmp/jasp-orchestrator"@),
            r.hang_timeout_ms == number_setting(vars.hang_timeout_ms, 30_000),
            r.activity_min_ms == number_setting(vars.activity_min_ms, 1_000),
            r.keep_workspaces == (vars.keep_workspaces is Some && (vars.keep_workspaces->0@ == "1"@
                || vars.keep_workspaces->0@ == "true"@)),
            match r.provisioner {
                Some(p) => {
                    &&& vars.libset is Some
                    &&& texts(p.libset@) == libset_of(vars.libset->0@)
                    &&& p.libset@.len() > 0
                    &&& p.runner_script@ == text_setting(
                        vars.runner_script,
                        "refactor_design/runner_jaspbase.R"@,
                    )
                    &&& p.rscript_bin@ == text_setting(vars.rscript, "Rscript"@)
                    &&& p.spawn_timeout_ms == number_setting(vars.spawn_timeout_ms, 120_000)
                    &&& p.park_timeout_ms == number_setting(vars.park_timeout_ms, 180_000)
                },
                None => vars.libset is Some ==> libset_of(vars.libset->0@).len() == 0,
            },
    {
        Config {
            control_url: text_or(&vars.url, "tcp://127.0.0.1:9555"),
            dataset_path,
            orchestrator_dir_root: text_or(&vars.dir_root, "/tmp/jasp-orchestrator"),
            hang_timeout_ms: number_or(&vars.hang_timeout_ms, 30_000),
            activity_min_ms: number_or(&vars.activity_min_ms, 1_000),
            keep_workspaces: match &vars.keep_workspaces {
                Some(v) => same(v, "1") || same(v, "true"),
                None => false,
            },
            provisioner: ProvisionerConfig::from_vars(vars),
        }
    }

    /// The scheme of the control address.
    pub fn scheme(&self) -> (r: &str)
        ensures
            r@ == scheme_of(self.control_url@),
    {
        proof {
            reveal_strlit("://");
        }
        cut_before(self.control_url.as_str(), "://")
    }

    /// The host of a TCP control address.
    pub fn tcp_host(&self) -> (r: &str)
        ensures
            r@ == host_of(self.control_url@),
    {
        proof {
            reveal_strlit("tcp://");
            reveal_strlit(":");
            reveal_strlit("]");
        }
        let rest = strip_start(self.control_url.as_str(), "tcp://");
        let len = rest.unicode_len();
        let close = find_place(rest, "]", 0);
        let h = if len > 0 && rest.get_char(0) == '[' && close < len {
            let part = rest.substring_char(0, close + 1);
            assert(part@ =~= rest@.take(close + 1));
            part
        } else {
            cut_before(rest, ":")
        };
        if h.unicode_len() == 0 {
            "127.0.0.1"
        } else {
            h
        }
    }

    /// The directory of a session.
    pub fn session_workspace(&self, session_id: &str) -> (r: String)
        ensures
            r@ == path_below(self.orchestrator_dir_root@, session_id@),
    {
        join_path(&self.orchestrator_dir_root, session_id)
    }

    /// The directory of a work unit, with all its revisions.
    pub fn work_workspace(&self, session_id: &str, work_id: &str) -> (r: String)
        ensures
            r@ == path_below(path_below(self.orchestrator_dir_root@, session_id@), work_id@),
    {
        join_path(&self.session_workspace(session_id), work_id)
    }

    /// The directory of one revision's results.
    pub fn revision_dir(&self, session_id: &str, work_id: &str, revision: u64) -> (r: String)
        ensures
            r@ == results_dir(self.orchestrator_dir_root@, session_id@, work_id@, revision),
    {
        let mut name = "results_".to_string();
        push_decimal(&mut name, revision);
        join_path(&self.work_workspace(session_id, work_id), name.as_str())
    }

    /// The address to listen on for a new peer. Where the transport is TCP the system picks
    /// the port.
    pub fn channel_address(&self, nonce: u64, id: &str, process: u32) -> (r: String)
        ensures
            r@ == channel_of(self.control_url@, nonce, id@, process),
    {
        let mut out: String;
        let scheme = self.scheme().to_string();
        if same(&scheme, "inproc") {
            out = "inproc://jasp-ch-".to_string();
            push_decimal(&mut out, nonce);
            out.append("-");
            out.append(id);
        } else if same(&scheme, "ipc") {
            out = "ipc:///tmp/jasp-ch-".to_string();
            push_decimal(&mut out, nonce);
            out.append("-");
            out.append(id);
            out.append("-");
            push_decimal(&mut out, process as u64);
            out.append(".sock");
        } else {
            out = "tcp://".to_string();
            out.append(self.tcp_host());
            out.append(":0");
        }
        assert(out@ =~= channel_of(self.control_url@, nonce, id@, process));
        out
    }
}

/// The address to listen on for a new peer.
pub open spec fn channel_of(url: Seq<char>, nonce: u64, id: Seq<char>, process: u32) -> Seq<char> {
    if scheme_of(url) == "inproc"@ {
        "inproc://jasp-ch-"@ + decimal(nonce as nat) + "-"@ + id
    } else if scheme_of(url) == "ipc"@ {
        "ipc:///tmp/jasp-ch-"@ + decimal(nonce as nat) + "-"@ + id + "-"@ + decimal(
            process as nat,
        ) + ".sock"@
    } else {
        "tcp://"@ + host_of(url) + ":0"@
    }
}

} // verus!
