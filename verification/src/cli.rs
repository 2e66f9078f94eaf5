//! The command line: reading the arguments, and deciding where the boot records come from.
use vstd::prelude::*;
use crate::lastlog::lines_text;
use crate::text::same_text;

verus! {

broadcast use vstd::string::group_string_axioms;

/// The options given on the command line.
pub struct CliOptions {
    /// A log file, or `-` for standard input.
    pub file_arg: Option<String>,
    /// A binary wtmp file to read with `last -f`.
    pub wtmp_arg: Option<String>,
    /// A remote host to inspect.
    pub host: Option<String>,
    pub collect: bool,
    pub install_daemon: bool,
    pub status_daemon: bool,
    pub uninstall_daemon: bool,
    pub raw: bool,
}

/// The options as plain values.
pub struct CliModel {
    pub file_arg: Option<Seq<char>>,
    pub wtmp_arg: Option<Seq<char>>,
    pub host: Option<Seq<char>>,
    pub collect: bool,
    pub install_daemon: bool,
    pub status_daemon: bool,
    pub uninstall_daemon: bool,
    pub raw: bool,
}

/// The view of an optional string.
pub open spec fn opt_view(s: Option<String>) -> Option<Seq<char>> {
    match s {
        Some(s) => Some(s@),
        None => None,
    }
}

impl View for CliOptions {
    type V = CliModel;

    open spec fn view(&self) -> CliModel {
        CliModel {
            file_arg: opt_view(self.file_arg),
            wtmp_arg: opt_view(self.wtmp_arg),
            host: opt_view(self.host),
            collect: self.collect,
            install_daemon: self.install_daemon,
            status_daemon: self.status_daemon,
            uninstall_daemon: self.uninstall_daemon,
            raw: self.raw,
        }
    }
}

/// No option given.
pub open spec fn no_options() -> CliModel {
    CliModel {
        file_arg: None,
        wtmp_arg: None,
        host: None,
        collect: false,
        install_daemon: false,
        status_daemon: false,
        uninstall_daemon: false,
        raw: false,
    }
}

/// What reading the command line ends in.
pub enum CliOutcome {
    /// Help was asked for.
    Help,
    /// An option lacks its value; the message says which.
    Failed(String),
    /// Run with these options.
    Run(CliOptions),
}

/// What reading the command line ends in, as plain values.
pub enum CliOutcomeModel {
    Help,
    Failed(Seq<char>),
    Run(CliModel),
}

/// The outcome of reading the command line, with the warnings given on the way.
pub struct CliParse {
    pub warnings: Vec<String>,
    pub outcome: CliOutcome,
}

/// The outcome as plain values.
pub open spec fn outcome_view(o: CliOutcome) -> CliOutcomeModel {
    match o {
        CliOutcome::Help => CliOutcomeModel::Help,
        CliOutcome::Failed(m) => CliOutcomeModel::Failed(m@),
        CliOutcome::Run(opts) => CliOutcomeModel::Run(opts@),
    }
}

/// The message for `-f` given last, without a file.
pub const MISSING_WTMP_FILE: &'static str = "Error: -f / --file-wtmp requires an argument";

/// The message for `--host` given last, without a host.
pub const MISSING_HOST: &'static str = "Error: --host requires an argument";

/// The warning for an option that is not known.
pub open spec fn unknown_option_warning(arg: Seq<char>) -> Seq<char> {
    "Warning: unknown option '"@ + arg + "'"@
}

/// An argument that names the target: `-` (standard input) or one that does not start with `-`.
pub open spec fn is_target(arg: Seq<char>) -> bool {
    arg == "-"@ || !(arg.len() > 0 && arg[0] == '-')
}

/// Reading the arguments from position `i` on, with the options `m` and the warnings `warns`
/// gathered so far.
pub open spec fn read_args(args: Seq<Seq<char>>, i: int, m: CliModel, warns: Seq<Seq<char>>) -> (
    Seq<Seq<char>>,
    CliOutcomeModel,
)
    decreases args.len() - i,
{
    if i < 0 || i >= args.len() {
        (warns, CliOutcomeModel::Run(m))
    } else {
        let a = args[i];
        if a == "-h"@ || a == "--help"@ {
            (warns, CliOutcomeModel::Help)
        } else if a == "-f"@ || a == "--file-wtmp"@ {
            if i + 1 < args.len() {
                read_args(args, i + 2, CliModel { wtmp_arg: Some(args[i + 1]), ..m }, warns)
            } else {
                (warns, CliOutcomeModel::Failed(MISSING_WTMP_FILE@))
            }
        } else if a.len() >= 2 && a[0] == '-' && a[1] == 'f' {
            read_args(args, i + 1, CliModel { wtmp_arg: Some(a.skip(2)), ..m }, warns)
        } else if a == "--host"@ {
            if i + 1 < args.len() {
                read_args(args, i + 2, CliModel { host: Some(args[i + 1]), ..m }, warns)
            } else {
                (warns, CliOutcomeModel::Failed(MISSING_HOST@))
            }
        } else if a == "--collect"@ {
            read_args(args, i + 1, CliModel { collect: true, ..m }, warns)
        } else if a == "--install-daemon"@ {
            read_args(args, i + 1, CliModel { install_daemon: true, ..m }, warns)
        } else if a == "--status-daemon"@ {
            read_args(args, i + 1, CliModel { status_daemon: true, ..m }, warns)
        } else if a == "--uninstall-daemon"@ {
            read_args(args, i + 1, CliModel { uninstall_daemon: true, ..m }, warns)
        } else if a == "--raw"@ {
            read_args(args, i + 1, CliModel { raw: true, ..m }, warns)
        } else if is_target(a) {
            read_args(
                args,
                i + 1,
                if m.file_arg is None {
                    CliModel { file_arg: Some(a), ..m }
                } else {
                    m
                },
                warns,
            )
        } else {
            read_args(args, i + 1, m, warns.push(unknown_option_warning(a)))
        }
    }
}

/// Takes an owned copy of `s`.
fn copy_text(s: &str) -> (t: String)
    ensures
        t@ == s@,
{
    String::from_str(s)
}

/// Reads the command line `args` (the program's name first): the options, or a request for
/// help, or the message of an option that lacks its value, with the warnings for unknown options
/// met before.
pub fn parse_cli_args(args: &Vec<String>) -> (parsed: CliParse)
    ensures
        (lines_text(parsed.warnings@), outcome_view(parsed.outcome)) == read_args(
            lines_text(args@),
            1,
            no_options(),
            seq![],
        ),
{
    let ghost all = lines_text(args@);
    let mut opts = CliOptions {
        file_arg: None,
        wtmp_arg: None,
        host: None,
        collect: false,
        install_daemon: false,
        status_daemon: false,
        uninstall_daemon: false,
        raw: false,
    };
    let mut warnings: Vec<String> = Vec::new();
    let n = args.len();
    let mut i: usize = 1;
    assert(opts@ == no_options());
    assert(lines_text(warnings@) =~= Seq::<Seq<char>>::empty());
    while i < n
        invariant
            n == args.len(),
            all == lines_text(args@),
            1 <= i,
            read_args(all, i as int, opts@, lines_text(warnings@)) == read_args(
                all,
                1,
                no_options(),
                seq![],
            ),
        decreases n - i,
    {
        let a = args[i].as_str();
        assert(a@ == all[i as int]);
        let chars = crate::text::chars_of(a);
        if same_text(a, "-h") || same_text(a, "--help") {
            return CliParse { warnings, outcome: CliOutcome::Help };
        } else if same_text(a, "-f") || same_text(a, "--file-wtmp") {
            if i + 1 < n {
                opts.wtmp_arg = Some(copy_text(args[i + 1].as_str()));
                i = i + 2;
            } else {
                return CliParse {
                    warnings,
                    outcome: CliOutcome::Failed(copy_text(MISSING_WTMP_FILE)),
                };
            }
        } else if chars.len() >= 2 && chars[0] == '-' && chars[1] == 'f' {
            let rest = a.substring_char(2, chars.len());
            assert(rest@ =~= a@.skip(2));
            opts.wtmp_arg = Some(copy_text(rest));
            i = i + 1;
        } else if same_text(a, "--host") {
            if i + 1 < n {
                opts.host = Some(copy_text(args[i + 1].as_str()));
                i = i + 2;
            } else {
                return CliParse { warnings, outcome: CliOutcome::Failed(copy_text(MISSING_HOST)) };
            }
        } else if same_text(a, "--collect") {
            opts.collect = true;
            i = i + 1;
        } else if same_text(a, "--install-daemon") {
            opts.install_daemon = true;
            i = i + 1;
        } else if same_text(a, "--status-daemon") {
            opts.status_daemon = true;
            i = i + 1;
        } else if same_text(a, "--uninstall-daemon") {
            opts.uninstall_daemon = true;
            i = i + 1;
        } else if same_text(a, "--raw") {
            opts.raw = true;
            i = i + 1;
        } else if same_text(a, "-") || !(chars.len() > 0 && chars[0] == '-') {
            if opts.file_arg.is_none() {
                opts.file_arg = Some(copy_text(a));
            }
            i = i + 1;
        } else {
            let ghost before = warnings@;
            let mut w = String::new();
            w.append("Warning: unknown option '");
            w.append(a);
            w.append("'");
            warnings.push(w);
            assert(lines_text(warnings@) =~= lines_text(before).push(unknown_option_warning(a@)));
            i = i + 1;
        }
    }
    CliParse { warnings, outcome: CliOutcome::Run(opts) }
}

/// The options after deciding whether the target names a host: a target other than `-` that is
/// not an existing file names the host to inspect, unless a host is given already.
pub open spec fn resolved(m: CliModel, target_exists: bool) -> CliModel {
    match m.file_arg {
        Some(t) => if t != "-"@ && !target_exists && m.host is None {
            CliModel { host: Some(t), file_arg: None, ..m }
        } else {
            m
        },
        None => m,
    }
}

/// Decides whether the target names a host, `target_exists` telling whether it is an existing
/// file.
pub fn resolve_target(opts: CliOptions, target_exists: bool) -> (r: CliOptions)
    ensures
        r@ == resolved(opts@, target_exists),
{
    let mut opts = opts;
    let make_host = match &opts.file_arg {
        Some(t) => !same_text(t.as_str(), "-") && !target_exists && opts.host.is_none(),
        None => false,
    };
    if make_host {
        opts.host = opts.file_arg.take();
    }
    opts
}

/// Where the boot records come from.
pub enum InputSource {
    /// The sessions of a remote machine.
    RemoteSessions(String),
    /// A binary wtmp file, read with `last -f`.
    WtmpFile(String),
    /// Standard input.
    Stdin,
    /// A file: read with `last -f` when it holds a zero byte, as text otherwise.
    LogFile(String),
    /// Where the system keeps them.
    Default,
}

/// Where the boot records come from, as plain values.
pub enum InputSourceModel {
    RemoteSessions(Seq<char>),
    WtmpFile(Seq<char>),
    Stdin,
    LogFile(Seq<char>),
    Default,
}

/// The source as plain values.
pub open spec fn source_view(s: InputSource) -> InputSourceModel {
    match s {
        InputSource::RemoteSessions(h) => InputSourceModel::RemoteSessions(h@),
        InputSource::WtmpFile(f) => InputSourceModel::WtmpFile(f@),
        InputSource::Stdin => InputSourceModel::Stdin,
        InputSource::LogFile(f) => InputSourceModel::LogFile(f@),
        InputSource::Default => InputSourceModel::Default,
    }
}

/// Where the options say the boot records come from: a host first, then a wtmp file, then the
/// target (`-` being standard input), then the system's own records.
pub open spec fn source_of(m: CliModel) -> InputSourceModel {
    match m.host {
        Some(h) => InputSourceModel::RemoteSessions(h),
        None => match m.wtmp_arg {
            Some(w) => InputSourceModel::WtmpFile(w),
            None => match m.file_arg {
                Some(f) => if f == "-"@ {
                    InputSourceModel::Stdin
                } else {
                    InputSourceModel::LogFile(f)
                },
                None => InputSourceModel::Default,
            },
        },
    }
}

/// Decides where the boot records come from.
pub fn input_source(opts: &CliOptions) -> (s: InputSource)
    ensures
        source_view(s) == source_of(opts@),
{
    match &opts.host {
        Some(h) => InputSource::RemoteSessions(copy_text(h.as_str())),
        None => match &opts.wtmp_arg {
            Some(w) => InputSource::WtmpFile(copy_text(w.as_str())),
            None => match &opts.file_arg {
                Some(f) => if same_text(f.as_str(), "-") {
                    InputSource::Stdin
                } else {
                    InputSource::LogFile(copy_text(f.as_str()))
                },
                None => InputSource::Default,
            },
        },
    }
}

/// The system's own wtmp file.
pub const DEFAULT_WTMP: &'static str = "/var/log/wtmp";

/// Where the system's own boot records come from.
pub enum DefaultLines {
    /// The activity sessions collected on this machine.
    LocalSessions,
    /// `last -R -F reboot` with these further arguments.
    Last(Vec<String>),
}

/// The further arguments for `last`, given the wtmp files that exist (the current one first,
/// then the rotated ones): every file when there are several, the only one when it is not the
/// current one, none otherwise.
pub open spec fn last_args(existing: Seq<Seq<char>>) -> Seq<Seq<char>> {
    if existing.len() > 1 {
        Seq::new(2 * existing.len(), |k: int| if k % 2 == 0 { "-f"@ } else { existing[k / 2] })
    } else if existing.len() == 1 && existing[0] != DEFAULT_WTMP@ {
        seq!["-f"@, existing[0]]
    } else {
        seq![]
    }
}

/// Decides where the system's own boot records come from: the collected sessions on macOS,
/// `last` otherwise, reading the wtmp files that exist (`existing_wtmp`, the current one first).
pub fn get_default_lines(on_macos: bool, existing_wtmp: &Vec<String>) -> (d: DefaultLines)
    ensures
        on_macos ==> d is LocalSessions,
        !on_macos ==> (d matches DefaultLines::Last(args) && lines_text(args@) == last_args(
            lines_text(existing_wtmp@),
        )),
{
    if on_macos {
        return DefaultLines::LocalSessions;
    }
    let ghost ex = lines_text(existing_wtmp@);
    let n = existing_wtmp.len();
    let mut args: Vec<String> = Vec::new();
    if n > 1 {
        let mut i: usize = 0;
        while i < n
            invariant
                n == existing_wtmp.len(),
                ex == lines_text(existing_wtmp@),
                n > 1,
                i <= n,
                lines_text(args@) =~= Seq::new(
                    2 * i as nat,
                    |k: int| if k % 2 == 0 { "-f"@ } else { ex[k / 2] },
                ),
            decreases n - i,
        {
            let ghost before = lines_text(args@);
            args.push(copy_text("-f"));
            args.push(copy_text(existing_wtmp[i].as_str()));
            proof {
                assert(lines_text(args@) =~= before.push("-f"@).push(ex[i as int]));
                assert forall|k: int| 0 <= k < 2 * (i + 1) implies #[trigger] lines_text(args@)[k] == (
                if k % 2 == 0 {
                    "-f"@
                } else {
                    ex[k / 2]
                }) by {
                    if k < 2 * i {
                        assert(lines_text(args@)[k] == before[k]);
                    } else if k == 2 * i {
                        assert(k % 2 == 0);
                    } else {
                        assert(k % 2 == 1);
                        assert(k / 2 == i);
                    }
                }
            }
            i = i + 1;
        }
    } else if n == 1 && !same_text(existing_wtmp[0].as_str(), DEFAULT_WTMP) {
        args.push(copy_text("-f"));
        args.push(copy_text(existing_wtmp[0].as_str()));
        assert(lines_text(args@) =~= seq!["-f"@, ex[0]]);
    } else {
        assert(lines_text(args@) =~= Seq::<Seq<char>>::empty());
    }
    DefaultLines::Last(args)
}

} // verus!
