//! Launch resolution: how an agent process is started from its runtime
//! type or its command template, and where instance records live.

use vstd::prelude::*;
use vstd::string::*;
use crate::text::{chars_of, white_space, is_whitespace, push_char, string_of, join, join_path, sanitize_id, sanitized, str_eq, split_words, words};
use crate::types::{AgentRuntimeConfig, RuntimeInstallConfig};

verus! {

// ── Template expansion ───────────────────────────────────────────────────────

/// `s` with every occurrence of the non-empty `pat` replaced by `rep`, left
/// to right and without overlap, as `str::replace` does.
pub open spec fn replace_all(s: Seq<char>, pat: Seq<char>, rep: Seq<char>) -> Seq<char>
    decreases s.len(),
{
    if pat.len() == 0 || s.len() < pat.len() {
        s
    } else if s.take(pat.len() as int) == pat {
        rep + replace_all(s.skip(pat.len() as int), pat, rep)
    } else {
        seq![s[0]] + replace_all(s.skip(1), pat, rep)
    }
}

/// `s` without leading and trailing white space, as `str::trim` gives it.
pub open spec fn trimmed(s: Seq<char>) -> Seq<char> {
    let lo = leading_ws(s, 0);
    let hi = trailing_end(s, s.len() as int);
    if lo >= hi { Seq::empty() } else { s.subrange(lo, hi) }
}

/// Index of the first non-white-space character at or after `i`, or the
/// length.
pub open spec fn leading_ws(s: Seq<char>, i: int) -> int
    decreases s.len() - i,
{
    if i < 0 || i >= s.len() || !white_space(s[i]) { i } else { leading_ws(s, i + 1) }
}

/// One past the last non-white-space character before `j`, or 0.
pub open spec fn trailing_end(s: Seq<char>, j: int) -> int
    decreases j,
{
    if j <= 0 || j > s.len() || !white_space(s[j - 1]) { j } else { trailing_end(s, j - 1) }
}

/// The state of the word splitter: the words so far, the word being read,
/// whether a quote is open, and which quote character opened it.
pub struct SplitState {
    pub words: Seq<Seq<char>>,
    pub current: Seq<char>,
    pub in_quote: bool,
    pub quote_char: char,
}

/// One character through the splitter: inside quotes everything but the
/// closing quote is kept; outside, `"` and `'` open a quote and white space
/// ends a non-empty word.
pub open spec fn split_step(st: SplitState, c: char) -> SplitState {
    if st.in_quote {
        if c == st.quote_char {
            SplitState { in_quote: false, ..st }
        } else {
            SplitState { current: st.current.push(c), ..st }
        }
    } else if c == '"' || c == '\'' {
        SplitState { in_quote: true, quote_char: c, ..st }
    } else if white_space(c) {
        if st.current.len() > 0 {
            SplitState { words: st.words.push(st.current), current: Seq::empty(), ..st }
        } else {
            st
        }
    } else {
        SplitState { current: st.current.push(c), ..st }
    }
}

pub open spec fn split_run(s: Seq<char>) -> SplitState
    decreases s.len(),
{
    if s.len() == 0 {
        SplitState { words: Seq::empty(), current: Seq::empty(), in_quote: false, quote_char: '"' }
    } else {
        split_step(split_run(s.drop_last()), s.last())
    }
}

/// The words of `s`, split at white space outside quotes; quotes group and
/// are dropped.
pub open spec fn shell_split(s: Seq<char>) -> Seq<Seq<char>> {
    let st = split_run(s);
    if st.current.len() > 0 { st.words.push(st.current) } else { st.words }
}

/// `s` with every `{entry}` replaced by `entry`.
fn replace_entry(s: &Vec<char>, entry: &Vec<char>) -> (r: Vec<char>)
    ensures
        r@ == replace_all(s@, "{entry}"@, entry@),
{
    proof {
        reveal_strlit("{entry}");
    }
    let pat: Vec<char> = vec!['{', 'e', 'n', 't', 'r', 'y', '}'];
    proof {
        assert(pat@ =~= "{entry}"@);
    }
    let mut r: Vec<char> = Vec::new();
    let mut i: usize = 0;
    proof {
        assert(s@.skip(0) =~= s@);
        assert(r@ + replace_all(s@, pat@, entry@) =~= replace_all(s@, pat@, entry@));
    }
    while i < s.len()
        invariant
            pat@ == "{entry}"@,
            pat@.len() == 7,
            i <= s.len(),
            r@ + replace_all(s@.skip(i as int), pat@, entry@) == replace_all(s@, pat@, entry@),
        decreases s.len() - i,
    {
        let ghost rest = s@.skip(i as int);
        let mut matched = s.len() >= 7 && i <= s.len() - 7;
        let mut k: usize = 0;
        while matched && k < 7
            invariant
                pat@.len() == 7,
                k <= 7,
                matched ==> i + 7 <= s.len(),
                matched ==> forall|q: int| 0 <= q < k ==> #[trigger] s@[i + q] == pat@[q],
                !matched ==> (i + 7 > s.len() || exists|q: int| 0 <= q < 7 && #[trigger] s@[i + q] != pat@[q]),
            decreases 7 - k,
        {
            if s[i + k] != pat[k] {
                matched = false;
            }
            k += 1;
        }
        if matched {
            proof {
                assert(k == 7);
                assert forall|q: int| 0 <= q < 7 implies rest.take(7)[q] == pat@[q] by {
                    assert(s@[i + q] == pat@[q]);
                }
                assert(rest.take(7) =~= pat@);
                assert(rest.skip(7) =~= s@.skip(i + 7));
            }
            let mut q: usize = 0;
            let ghost r0 = r@;
            while q < entry.len()
                invariant
                    q <= entry.len(),
                    r@ == r0 + entry@.take(q as int),
                decreases entry.len() - q,
            {
                r.push(entry[q]);
                proof {
                    assert(entry@.take(q + 1) =~= entry@.take(q as int).push(entry@[q as int]));
                }
                q += 1;
            }
            proof {
                assert(entry@.take(entry.len() as int) =~= entry@);
                assert(r@ + replace_all(s@.skip(i + 7), pat@, entry@) =~= r0 + replace_all(rest, pat@, entry@));
            }
            i += 7;
        } else {
            proof {
                if rest.len() >= 7 {
                    assert(rest.take(7) != pat@) by {
                        let q = choose|q: int| 0 <= q < 7 && #[trigger] s@[i + q] != pat@[q];
                        assert(rest.take(7)[q] == s@[i + q]);
                    }
                }
                assert(rest.skip(1) =~= s@.skip(i + 1));
                assert(rest[0] == s@[i as int]);
                assert(r@.push(s@[i as int]) + replace_all(s@.skip(i + 1), pat@, entry@)
                    =~= r@ + (seq![rest[0]] + replace_all(rest.skip(1), pat@, entry@)));
            }
            r.push(s[i]);
            i += 1;
        }
    }
    proof {
        assert(s@.skip(s.len() as int) =~= Seq::<char>::empty());
        assert(r@ + Seq::<char>::empty() =~= r@);
    }
    r
}

pub fn trim_text(s: &Vec<char>) -> (r: Vec<char>)
    ensures
        r@ == trimmed(s@),
{
    let mut lo: usize = 0;
    while lo < s.len() && is_whitespace(s[lo])
        invariant
            lo <= s.len(),
            leading_ws(s@, 0) == leading_ws(s@, lo as int),
        decreases s.len() - lo,
    {
        lo += 1;
    }
    let mut hi: usize = s.len();
    while hi > 0 && is_whitespace(s[hi - 1])
        invariant
            hi <= s.len(),
            trailing_end(s@, s.len() as int) == trailing_end(s@, hi as int),
        decreases hi,
    {
        hi -= 1;
    }
    if lo >= hi {
        return Vec::new();
    }
    crate::text::copy_range(s, lo, hi)
}

/// Splits `s` into words as a shell would, naively: white space separates
/// words outside quotes, and quotes group.
fn shell_words(s: &Vec<char>) -> (r: Vec<String>)
    ensures
        r@.map_values(|w: String| w@) == shell_split(s@),
{
    let mut words: Vec<String> = Vec::new();
    let mut current: Vec<char> = Vec::new();
    let mut in_quote = false;
    let mut quote_char = '"';
    let mut i: usize = 0;
    proof {
        assert(s@.take(0) =~= Seq::<char>::empty());
        assert(words@.map_values(|w: String| w@) =~= Seq::<Seq<char>>::empty());
        assert(current@ =~= Seq::<char>::empty());
    }
    while i < s.len()
        invariant
            i <= s.len(),
            split_run(s@.take(i as int)) == (SplitState {
                words: words@.map_values(|w: String| w@),
                current: current@,
                in_quote,
                quote_char,
            }),
        decreases s.len() - i,
    {
        proof {
            assert(s@.take(i + 1).drop_last() =~= s@.take(i as int));
            assert(s@.take(i + 1).last() == s@[i as int]);
        }
        let c = s[i];
        if in_quote {
            if c == quote_char {
                in_quote = false;
            } else {
                current.push(c);
            }
        } else if c == '"' || c == '\'' {
            in_quote = true;
            quote_char = c;
        } else if is_whitespace(c) {
            if current.len() > 0 {
                let w = string_of(&current);
                let ghost w0 = words@;
                words.push(w);
                current = Vec::new();
                proof {
                    assert(words@.map_values(|w: String| w@) =~= w0.map_values(|w: String| w@).push(w@));
                }
            }
        } else {
            current.push(c);
        }
        i += 1;
    }
    proof {
        assert(s@.take(s.len() as int) =~= s@);
    }
    if current.len() > 0 {
        let w = string_of(&current);
        let ghost w0 = words@;
        words.push(w);
        proof {
            assert(words@.map_values(|w: String| w@) =~= w0.map_values(|w: String| w@).push(w@));
        }
    }
    words
}

// ── Launch resolution ────────────────────────────────────────────────────────

/// Why a launch could not be resolved.
pub enum LaunchError {
    /// The command template holds no word.
    EmptyTemplate,
}

/// The words of the command template `t` for the entry point `entry`.
pub open spec fn template_words(t: Seq<char>, entry: Seq<char>) -> Seq<Seq<char>> {
    shell_split(trimmed(replace_all(t, "{entry}"@, entry)))
}

fn parse_template(template: &str, entry: &str) -> (r: Result<(String, Vec<String>), LaunchError>)
    ensures
        ({
            let ws = template_words(template@, entry@);
            if ws.len() == 0 {
                r == Err::<(String, Vec<String>), LaunchError>(LaunchError::EmptyTemplate)
            } else {
                r matches Ok((b, args)) && b@ == ws[0] && args@.map_values(|a: String| a@) == ws.skip(1)
            }
        }),
{
    let t = chars_of(template);
    let e = chars_of(entry);
    let expanded = replace_entry(&t, &e);
    let trimmed_t = trim_text(&expanded);
    let mut words = shell_words(&trimmed_t);
    if words.len() == 0 {
        return Err(LaunchError::EmptyTemplate);
    }
    let ghost w0 = words@;
    let binary = words.remove(0);
    proof {
        assert(words@.map_values(|a: String| a@) =~= w0.map_values(|a: String| a@).skip(1));
    }
    Ok((binary, words))
}

/// How a known runtime is launched: its binary and the arguments before the
/// entry point. `None` for runtimes whose entry point is itself the binary.
pub open spec fn runtime_table(kind: Seq<char>) -> Option<(Seq<char>, Seq<Seq<char>>)> {
    if kind == "python3"@ || kind == "python"@ { Some(("python3"@, seq![])) }
    else if kind == "node"@ || kind == "nodejs"@ { Some(("node"@, seq![])) }
    else if kind == "go"@ { Some(("go"@, seq!["run"@])) }
    else if kind == "deno"@ { Some(("deno"@, seq!["run"@])) }
    else if kind == "bun"@ { Some(("bun"@, seq!["run"@])) }
    else if kind == "ruby"@ { Some(("ruby"@, seq![])) }
    else if kind == "php"@ { Some(("php"@, seq![])) }
    else if kind == "perl"@ { Some(("perl"@, seq![])) }
    else if kind == "java"@ { Some(("java"@, seq!["-jar"@])) }
    else if kind == "dotnet"@ || kind == ".net"@ { Some(("dotnet"@, seq!["run"@])) }
    else if kind == "gx"@ { Some(("gx"@, seq!["run"@])) }
    else if kind == "shell"@ || kind == "sh"@ || kind == "bash"@ { Some(("sh"@, seq!["-c"@])) }
    else if kind == "powershell"@ || kind == "pwsh"@ { Some(("pwsh"@, seq!["-File"@])) }
    else { None }
}

fn table_entry(kind: &str) -> (r: Option<(&'static str, Vec<&'static str>)>)
    ensures
        match runtime_table(kind@) {
            None => r is None,
            Some((b, pre)) => r matches Some((rb, rp)) && rb@ == b && rp@.map_values(|a: &str| a@) == pre,
        },
{
    proof {
        reveal_strlit("python3"); reveal_strlit("python"); reveal_strlit("node"); reveal_strlit("nodejs");
        reveal_strlit("go"); reveal_strlit("deno"); reveal_strlit("bun"); reveal_strlit("ruby");
        reveal_strlit("php"); reveal_strlit("perl"); reveal_strlit("java"); reveal_strlit("dotnet");
        reveal_strlit(".net"); reveal_strlit("gx"); reveal_strlit("shell"); reveal_strlit("sh");
        reveal_strlit("bash"); reveal_strlit("powershell"); reveal_strlit("pwsh"); reveal_strlit("run");
        reveal_strlit("-jar"); reveal_strlit("-c"); reveal_strlit("-File");
    }
    let r: Option<(&'static str, Vec<&'static str>)> =
        if str_eq(kind, "python3") || str_eq(kind, "python") { Some(("python3", vec![])) }
        else if str_eq(kind, "node") || str_eq(kind, "nodejs") { Some(("node", vec![])) }
        else if str_eq(kind, "go") { Some(("go", vec!["run"])) }
        else if str_eq(kind, "deno") { Some(("deno", vec!["run"])) }
        else if str_eq(kind, "bun") { Some(("bun", vec!["run"])) }
        else if str_eq(kind, "ruby") { Some(("ruby", vec![])) }
        else if str_eq(kind, "php") { Some(("php", vec![])) }
        else if str_eq(kind, "perl") { Some(("perl", vec![])) }
        else if str_eq(kind, "java") { Some(("java", vec!["-jar"])) }
        else if str_eq(kind, "dotnet") || str_eq(kind, ".net") { Some(("dotnet", vec!["run"])) }
        else if str_eq(kind, "gx") { Some(("gx", vec!["run"])) }
        else if str_eq(kind, "shell") || str_eq(kind, "sh") || str_eq(kind, "bash") { Some(("sh", vec!["-c"])) }
        else if str_eq(kind, "powershell") || str_eq(kind, "pwsh") { Some(("pwsh", vec!["-File"])) }
        else { None };
    proof {
        let ghost gr = r;
        match (gr, runtime_table(kind@)) {
            (Some((_, rp)), Some((_, pre))) => {
                assert(rp@.map_values(|a: &str| a@) =~= pre);
            },
            _ => {},
        }
    }
    r
}

/// Whether a file exists at `path`, by std's `Path::exists`; what is on
/// disk decides, so nothing is claimed of the answer.
#[verifier::external_body]
pub(crate) fn path_exists(path: &str) -> bool {
    std::path::Path::new(path).exists()
}

/// Where a locally installed runtime binary would be.
pub open spec fn local_binary_path(runtimes_dir: Seq<char>, kind: Seq<char>, binary: Seq<char>) -> Seq<char> {
    join_path(join_path(runtimes_dir, kind), binary)
}

/// What launching an agent whose entry point is at `entry_path` gives, when
/// a copy of the runtime's binary is installed under `runtimes_dir` exactly
/// if `local_exists`: a command template in the runtime configuration wins;
/// a known runtime type launches its binary (the installed copy when there
/// is one, else the binary on the system path) with its leading arguments
/// and the entry point; other types run the entry point itself.
pub open spec fn launch_outcome(runtime: AgentRuntimeConfig, entry_path: Seq<char>, runtimes_dir: Seq<char>,
    local_exists: bool, r: Result<(String, Vec<String>), LaunchError>) -> bool {
    match runtime.command {
        Some(t) => {
            let ws = template_words(t@, entry_path);
            if ws.len() == 0 {
                r == Err::<(String, Vec<String>), LaunchError>(LaunchError::EmptyTemplate)
            } else {
                r matches Ok((b, args)) && b@ == ws[0] && args@.map_values(|a: String| a@) == ws.skip(1)
            }
        },
        None => match runtime_table(runtime.kind@) {
            None => r matches Ok((b, args)) && b@ == entry_path && args@.len() == 0,
            Some((bin, pre)) => r matches Ok((b, args))
                && b@ == (if local_exists { local_binary_path(runtimes_dir, runtime.kind@, bin) } else { bin })
                && args@.map_values(|a: String| a@) == pre.push(entry_path),
        },
    }
}

/// The launch of an agent given whether the runtime's binary is installed
/// under `runtimes_dir` (`local_exists`).
pub fn launch_given(runtime: &AgentRuntimeConfig, entry_path: &str, runtimes_dir: &str, local_exists: bool)
    -> (r: Result<(String, Vec<String>), LaunchError>)
    ensures
        launch_outcome(*runtime, entry_path@, runtimes_dir@, local_exists, r),
{
    if let Some(template) = &runtime.command {
        return parse_template(template.as_str(), entry_path);
    }
    match table_entry(runtime.kind.as_str()) {
        None => Ok((String::from_str(entry_path), Vec::new())),
        Some((binary, prefix)) => {
            let resolved = if local_exists {
                let dir = join(runtimes_dir, runtime.kind.as_str());
                join(dir.as_str(), binary)
            } else {
                String::from_str(binary)
            };
            let mut args: Vec<String> = Vec::new();
            let mut k: usize = 0;
            while k < prefix.len()
                invariant
                    k <= prefix.len(),
                    args@.map_values(|a: String| a@) == prefix@.take(k as int).map_values(|a: &str| a@),
                decreases prefix.len() - k,
            {
                let ghost a0 = args@;
                args.push(String::from_str(prefix[k]));
                proof {
                    assert(args@.map_values(|a: String| a@) =~= a0.map_values(|a: String| a@).push(prefix@[k as int]@));
                    assert(prefix@.take(k + 1).map_values(|a: &str| a@) =~= prefix@.take(k as int).map_values(|a: &str| a@).push(prefix@[k as int]@));
                }
                k += 1;
            }
            let ghost a0 = args@;
            args.push(String::from_str(entry_path));
            proof {
                assert(prefix@.take(prefix.len() as int) =~= prefix@);
                assert(args@.map_values(|a: String| a@) =~= a0.map_values(|a: String| a@).push(entry_path@));
            }
            Ok((resolved, args))
        },
    }
}

/// The binary and arguments that launch an agent whose entry point is at
/// `entry_path`, asking the disk whether the runtime's binary is installed
/// under `runtimes_dir`: as `launch_given` with that answer.
pub fn resolve_launch(runtime: &AgentRuntimeConfig, entry_path: &str, runtimes_dir: &str)
    -> (r: Result<(String, Vec<String>), LaunchError>)
    ensures
        launch_outcome(*runtime, entry_path@, runtimes_dir@, false, r)
            || launch_outcome(*runtime, entry_path@, runtimes_dir@, true, r),
{
    let local_exists = match &runtime.command {
        Some(_) => false,
        None => match table_entry(runtime.kind.as_str()) {
            Some((binary, _)) => {
                let dir = join(runtimes_dir, runtime.kind.as_str());
                let local = join(dir.as_str(), binary);
                path_exists(local.as_str())
            },
            None => false,
        },
    };
    launch_given(runtime, entry_path, runtimes_dir, local_exists)
}

impl LaunchError {
    /// The message the error is reported with.
    pub fn message(&self) -> (r: String)
        ensures
            r@ == "Empty command template in agent.yaml"@,
    {
        match self {
            LaunchError::EmptyTemplate => String::from_str("Empty command template in agent.yaml"),
        }
    }
}

/// The binary that stands for a runtime type on the system path.
pub open spec fn binary_name_of(kind: Seq<char>) -> Seq<char> {
    if kind == "python3"@ || kind == "python"@ { "python3"@ }
    else if kind == "node"@ || kind == "nodejs"@ { "node"@ }
    else if kind == "dotnet"@ || kind == ".net"@ { "dotnet"@ }
    else if kind == "powershell"@ { "pwsh"@ }
    else { kind }
}

pub fn runtime_binary_name(kind: &str) -> (r: String)
    ensures
        r@ == binary_name_of(kind@),
{
    proof {
        reveal_strlit("python3"); reveal_strlit("python"); reveal_strlit("node"); reveal_strlit("nodejs");
        reveal_strlit("dotnet"); reveal_strlit(".net"); reveal_strlit("powershell"); reveal_strlit("pwsh");
    }
    if str_eq(kind, "python3") || str_eq(kind, "python") {
        String::from_str("python3")
    } else if str_eq(kind, "node") || str_eq(kind, "nodejs") {
        String::from_str("node")
    } else if str_eq(kind, "dotnet") || str_eq(kind, ".net") {
        String::from_str("dotnet")
    } else if str_eq(kind, "powershell") {
        String::from_str("pwsh")
    } else {
        String::from_str(kind)
    }
}

/// The operating systems a node can run on.
pub enum TargetOs {
    Linux,
    MacOs,
    Windows,
    Other,
}

/// The install URL for the node's operating system: macOS falls back to the
/// Linux URL, and systems other than these three use the Linux one.
pub fn platform_install_url(install: &RuntimeInstallConfig, os: TargetOs) -> (r: Option<String>)
    ensures
        r == match os {
            TargetOs::Linux => install.linux,
            TargetOs::MacOs => if install.macos is Some { install.macos } else { install.linux },
            TargetOs::Windows => install.windows,
            TargetOs::Other => install.linux,
        },
{
    let pick = match os {
        TargetOs::Linux => &install.linux,
        TargetOs::MacOs => if install.macos.is_some() { &install.macos } else { &install.linux },
        TargetOs::Windows => &install.windows,
        TargetOs::Other => &install.linux,
    };
    match pick {
        Some(u) => Some(u.clone()),
        None => None,
    }
}

// ── Instance storage ─────────────────────────────────────────────────────────

/// The file of a tenant's instances: `instances/{tenant}.json` under
/// `base_dir`, the tenant id made safe as a file name.
pub fn instances_path(base_dir: &str, tenant_id: &str) -> (r: String)
    ensures
        r@ == join_path(join_path(base_dir@, "instances"@), sanitized(tenant_id@) + ".json"@),
{
    let dir = join(base_dir, "instances");
    let mut file = sanitize_id(tenant_id);
    file.append(".json");
    join(dir.as_str(), file.as_str())
}

/// The index of all instances: `instances/_index.json` under `base_dir`.
pub fn all_instances_index_path(base_dir: &str) -> (r: String)
    ensures
        r@ == join_path(join_path(base_dir@, "instances"@), "_index.json"@),
{
    let dir = join(base_dir, "instances");
    join(dir.as_str(), "_index.json")
}

// ── Runtime availability ─────────────────────────────────────────────────────

/// Whether a program named `binary` is found on the search path, by
/// `which::which`. The environment and the disk decide, so nothing is
/// claimed of the answer.
#[verifier::external_body]
fn on_path(binary: &str) -> bool {
    which::which(binary).is_ok()
}

/// What a node must do before it can launch an agent of a runtime.
pub enum RuntimeReadiness {
    /// The runtime is available.
    Ready,
    /// The runtime is missing and is installed from this URL.
    Install(String),
    /// The runtime is missing and cannot be installed; the message says so.
    Missing(String),
}

/// Runtime types that need no runtime program.
pub open spec fn native_kind(kind: Seq<char>) -> bool {
    kind == "shell"@ || kind == "sh"@ || kind == "rust"@ || kind == "rustc"@
}

pub open spec fn missing_message(kind: Seq<char>, binary: Seq<char>) -> Seq<char> {
    "Runtime '"@ + kind + "' (binary: '"@ + binary
        + "') is not installed on this node.\nAdd an 'install' block to your agent.yaml with download URLs, or install it manually."@
}

/// The install URL of an install block for `os`, as `platform_install_url`
/// picks it.
pub open spec fn install_url_of(install: RuntimeInstallConfig, os: TargetOs) -> Option<String> {
    match os {
        TargetOs::Linux => install.linux,
        TargetOs::MacOs => if install.macos is Some { install.macos } else { install.linux },
        TargetOs::Windows => install.windows,
        TargetOs::Other => install.linux,
    }
}

/// `r` is what must be done for `runtime` on `os`, when the runtime's binary
/// is on the search path (`binary_on_path`), installed locally (`local`),
/// and when the first word of its command template is a program on the
/// search path (`template_on_path`).
pub open spec fn is_readiness(r: RuntimeReadiness, runtime: AgentRuntimeConfig, os: TargetOs,
    binary_on_path: bool, local: bool, template_on_path: bool) -> bool {
    let kind = runtime.kind@;
    let template_ok = runtime.command matches Some(t) && words(t@).len() > 0 && template_on_path;
    if native_kind(kind) || binary_on_path || local || template_ok {
        r is Ready
    } else {
        match runtime.install {
            Some(install) => match install_url_of(install, os) {
                Some(u) => r matches RuntimeReadiness::Install(x) && x@ == u@,
                None => r matches RuntimeReadiness::Missing(m) && m@ == missing_message(kind, binary_name_of(kind)),
            },
            None => r matches RuntimeReadiness::Missing(m) && m@ == missing_message(kind, binary_name_of(kind)),
        }
    }
}

/// What must be done for `runtime` on `os`, given what was found of its
/// programs.
pub fn readiness_given(runtime: &AgentRuntimeConfig, os: TargetOs, binary_on_path: bool, local: bool,
    template_on_path: bool) -> (r: RuntimeReadiness)
    ensures
        is_readiness(r, *runtime, os, binary_on_path, local, template_on_path),
{
    proof {
        reveal_strlit("shell"); reveal_strlit("sh"); reveal_strlit("rust"); reveal_strlit("rustc");
    }
    let kind = runtime.kind.as_str();
    if str_eq(kind, "shell") || str_eq(kind, "sh") || str_eq(kind, "rust") || str_eq(kind, "rustc") {
        return RuntimeReadiness::Ready;
    }
    if binary_on_path || local {
        return RuntimeReadiness::Ready;
    }
    if let Some(t) = &runtime.command {
        let ws = split_words(&chars_of(t.as_str()));
        proof {
            assert(ws@.map_values(|w: Vec<char>| w@).len() == ws@.len());
        }
        if ws.len() > 0 && template_on_path {
            return RuntimeReadiness::Ready;
        }
    }
    let binary = runtime_binary_name(kind);
    let message = {
        let mut m = String::from_str("Runtime '");
        m.append(kind);
        m.append("' (binary: '");
        m.append(binary.as_str());
        m.append("') is not installed on this node.\nAdd an 'install' block to your agent.yaml with download URLs, or install it manually.");
        m
    };
    match &runtime.install {
        Some(install) => match platform_install_url(install, os) {
            Some(u) => RuntimeReadiness::Install(u),
            None => RuntimeReadiness::Missing(message),
        },
        None => RuntimeReadiness::Missing(message),
    }
}

/// What must be done for `runtime` on `os` before launching it, looking
/// for its programs on the search path and under `runtimes_dir`.
pub fn runtime_readiness(runtime: &AgentRuntimeConfig, runtimes_dir: &str, os: TargetOs) -> (r: RuntimeReadiness)
    ensures
        exists|a: bool, l: bool, t: bool| #[trigger] is_readiness(r, *runtime, os, a, l, t),
{
    let kind = runtime.kind.as_str();
    let binary = runtime_binary_name(kind);
    let found = on_path(binary.as_str());
    let candidate = {
        let d = join(runtimes_dir, kind);
        join(d.as_str(), binary.as_str())
    };
    let local = path_exists(candidate.as_str()) && !str_eq(candidate.as_str(), binary.as_str());
    let template_found = match &runtime.command {
        Some(t) => {
            let ws = split_words(&chars_of(t.as_str()));
            if ws.len() > 0 {
                let first = string_of(&ws[0]);
                on_path(first.as_str())
            } else {
                false
            }
        },
        None => false,
    };
    let r = readiness_given(runtime, os, found, local, template_found);
    proof {
        assert(is_readiness(r, *runtime, os, found, local, template_found));
    }
    r
}

} // verus!
