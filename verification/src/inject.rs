//! Typing the expansion into the terminal: the injection methods, the
//! arguments handed to `tmux`, and which program a keystroke injector runs.
//!
//! Running the programs and talking to the clipboard happen where the
//! library is driven; this module decides what is run and with which
//! arguments, and what a failure reads as.
use vstd::prelude::*;
use crate::text::{chars_of, string_of, trim, trim_chars};

verus! {

/// How an expansion reaches the focused application.
#[derive(Debug, Clone, Copy, PartialEq, Eq, Structural)]
pub enum InjectionMethod {
    Uinput,
    Clipboard,
    TmuxSendKeys,
    KittyRemote,
    Stdout,
}

/// Types through `tmux send-keys` inside tmux, else through `ydotool`.
#[derive(Debug, Clone, Copy)]
pub struct UinputInjector;

/// Types through `tmux send-keys`.
#[derive(Debug, Clone, Copy)]
pub struct TmuxInjector;

/// Puts the expansion on the clipboard.
#[derive(Debug, Clone, Copy)]
pub struct ClipboardInjector;

impl UinputInjector {
    /// The method this injector uses.
    pub fn method(&self) -> (m: InjectionMethod)
        ensures
            m == InjectionMethod::Uinput,
    {
        InjectionMethod::Uinput
    }
}

impl TmuxInjector {
    /// The method this injector uses.
    pub fn method(&self) -> (m: InjectionMethod)
        ensures
            m == InjectionMethod::TmuxSendKeys,
    {
        InjectionMethod::TmuxSendKeys
    }
}

impl ClipboardInjector {
    /// The method this injector uses.
    pub fn method(&self) -> (m: InjectionMethod)
        ensures
            m == InjectionMethod::Clipboard,
    {
        InjectionMethod::Clipboard
    }
}

/// Where `tmux send-keys` sends the keys; `None` is the current pane.
#[derive(Debug, Clone)]
pub struct TmuxInjectOptions {
    pub target_pane: Option<String>,
}

impl Default for TmuxInjectOptions {
    fn default() -> (o: Self)
        ensures
            o.target_pane is None,
    {
        TmuxInjectOptions { target_pane: None }
    }
}

/// Why an expansion could not be typed.
#[derive(Debug, Clone)]
pub enum InjectError {
    /// A target pane was given, and it is empty.
    EmptyTargetPane,
    /// Not inside tmux, and `ydotool` is not installed.
    NoMethodAvailable,
    /// A program could not be started: its name, and why.
    LaunchFailed { program: String, detail: String },
    /// A program that was run reported failure, with what it said.
    CommandFailed(String),
    /// The clipboard could not be opened, and why.
    ClipboardUnavailable(String),
    /// The clipboard refused the text, and why.
    ClipboardRejected(String),
}

/// The message of an injection error.
pub open spec fn inject_message(e: InjectError) -> Seq<char> {
    match e {
        InjectError::EmptyTargetPane => "tmux target pane cannot be empty"@,
        InjectError::NoMethodAvailable =>
            "No injection method available. Install ydotool or run inside tmux."@,
        InjectError::LaunchFailed { program, detail } => program@ + " failed: "@ + detail@,
        InjectError::CommandFailed(m) => m@,
        InjectError::ClipboardUnavailable(d) => "Failed to open clipboard: "@ + d@,
        InjectError::ClipboardRejected(d) => "Failed to set clipboard text: "@ + d@,
    }
}

impl InjectError {
    /// The error's message.
    pub fn message(&self) -> (m: String)
        ensures
            m@ == inject_message(*self),
    {
        match self {
            InjectError::EmptyTargetPane => String::from_str("tmux target pane cannot be empty"),
            InjectError::NoMethodAvailable => String::from_str(
                "No injection method available. Install ydotool or run inside tmux.",
            ),
            InjectError::LaunchFailed { program, detail } => {
                let mut m = program.clone();
                m.append(" failed: ");
                m.append(detail.as_str());
                m
            },
            InjectError::CommandFailed(m) => m.clone(),
            InjectError::ClipboardUnavailable(d) => {
                let mut m = String::from_str("Failed to open clipboard: ");
                m.append(d.as_str());
                m
            },
            InjectError::ClipboardRejected(d) => {
                let mut m = String::from_str("Failed to set clipboard text: ");
                m.append(d.as_str());
                m
            },
        }
    }
}

/// The arguments of `tmux` that type `text` literally, into `target` when
/// one is given.
pub open spec fn send_keys_spec(text: Seq<char>, target: Option<Seq<char>>) -> Seq<Seq<char>> {
    match target {
        Some(t) => seq!["send-keys"@, "-t"@, t, "-l"@, text],
        None => seq!["send-keys"@, "-l"@, text],
    }
}

/// The characters of each string of a list.
pub open spec fn args_view(v: Seq<String>) -> Seq<Seq<char>> {
    v.map_values(|s: String| s@)
}

/// The arguments of `tmux` that type `text` literally into `target_pane`,
/// or into the current pane when none is given. An empty target pane is
/// refused.
pub fn tmux_send_keys_args(text: &str, target_pane: Option<&str>) -> (r: Result<
    Vec<String>,
    InjectError,
>)
    ensures
        match target_pane {
            Some(t) => if t@.len() == 0 {
                r matches Err(InjectError::EmptyTargetPane)
            } else {
                r matches Ok(args) && args_view(args@) == send_keys_spec(text@, Some(t@))
            },
            None => r matches Ok(args) && args_view(args@) == send_keys_spec(text@, None),
        },
{
    let mut args: Vec<String> = Vec::new();
    args.push(String::from_str("send-keys"));
    if let Some(target) = target_pane {
        if target.is_empty() {
            return Err(InjectError::EmptyTargetPane);
        }
        args.push(String::from_str("-t"));
        args.push(target.to_owned());
    }
    args.push(String::from_str("-l"));
    args.push(text.to_owned());
    proof {
        assert(args_view(args@) =~= send_keys_spec(text@, match target_pane {
            Some(t) => Some(t@),
            None => None,
        }));
    }
    Ok(args)
}

/// A program to run and its arguments.
pub open spec fn command_view(c: (String, Vec<String>)) -> (Seq<char>, Seq<Seq<char>>) {
    (c.0@, args_view(c.1@))
}

/// What a keystroke injector runs to type `text`: `tmux send-keys -l`
/// inside tmux, else `ydotool type` where `ydotool` is installed.
pub open spec fn uinput_spec(text: Seq<char>, in_tmux: bool, has_ydotool: bool) -> Option<
    (Seq<char>, Seq<Seq<char>>),
> {
    if in_tmux {
        Some(("tmux"@, seq!["send-keys"@, "-l"@, text]))
    } else if has_ydotool {
        Some(("ydotool"@, seq!["type"@, text]))
    } else {
        None
    }
}

/// The program and arguments that type `text` for the keystroke injector,
/// given whether the session runs inside tmux and whether `ydotool` is
/// installed; an error where neither holds.
pub fn uinput_command(text: &str, in_tmux: bool, has_ydotool: bool) -> (r: Result<
    (String, Vec<String>),
    InjectError,
>)
    ensures
        match uinput_spec(text@, in_tmux, has_ydotool) {
            Some(c) => r matches Ok(cmd) && command_view(cmd) == c,
            None => r matches Err(InjectError::NoMethodAvailable),
        },
{
    if in_tmux {
        let mut args: Vec<String> = Vec::new();
        args.push(String::from_str("send-keys"));
        args.push(String::from_str("-l"));
        args.push(text.to_owned());
        let cmd = (String::from_str("tmux"), args);
        assert(command_view(cmd).1 =~= seq!["send-keys"@, "-l"@, text@]);
        Ok(cmd)
    } else if has_ydotool {
        let mut args: Vec<String> = Vec::new();
        args.push(String::from_str("type"));
        args.push(text.to_owned());
        let cmd = (String::from_str("ydotool"), args);
        assert(command_view(cmd).1 =~= seq!["type"@, text@]);
        Ok(cmd)
    } else {
        Err(InjectError::NoMethodAvailable)
    }
}

/// How `tmux send-keys` is named in an error: with the target pane, when
/// one was given.
pub open spec fn send_keys_name(target: Option<Seq<char>>) -> Seq<char> {
    match target {
        Some(t) => "tmux send-keys (target pane "@ + t + ")"@,
        None => "tmux send-keys"@,
    }
}

/// What a failed `tmux send-keys` reports: the command, with its target
/// pane when one was given, and tmux's standard error, trimmed, when there
/// is any.
pub open spec fn send_keys_failure_spec(target: Option<Seq<char>>, stderr: Seq<char>) -> Seq<char> {
    let detail = trim(stderr);
    if detail.len() == 0 {
        send_keys_name(target) + " exited with error"@
    } else {
        send_keys_name(target) + " exited with error: "@ + detail
    }
}

/// How `tmux send-keys` is named in an error.
fn send_keys_label(target: Option<&str>) -> (r: String)
    ensures
        r@ == send_keys_name(match target {
            Some(t) => Some(t@),
            None => None,
        }),
{
    match target {
        Some(t) => {
            let mut m = String::from_str("tmux send-keys (target pane ");
            m.append(t);
            m.append(")");
            m
        },
        None => String::from_str("tmux send-keys"),
    }
}

/// The error that a failed `tmux send-keys` into `target` is reported as,
/// from what it wrote to its standard error.
pub fn send_keys_failure(target: Option<&str>, stderr: &str) -> (e: InjectError)
    ensures
        e matches InjectError::CommandFailed(m) && m@ == send_keys_failure_spec(
            match target {
                Some(t) => Some(t@),
                None => None,
            },
            stderr@,
        ),
{
    let detail = string_of(&trim_chars(&chars_of(stderr)));
    let mut m = send_keys_label(target);
    if detail.as_str().is_empty() {
        m.append(" exited with error");
    } else {
        m.append(" exited with error: ");
        m.append(detail.as_str());
    }
    InjectError::CommandFailed(m)
}

/// The error that `tmux send-keys` into `target` could not be started is
/// reported as, with the reason.
pub fn send_keys_launch_failure(target: Option<&str>, detail: &str) -> (e: InjectError)
    ensures
        e matches InjectError::LaunchFailed { program, detail: d } && program@ == send_keys_name(
            match target {
                Some(t) => Some(t@),
                None => None,
            },
        ) && d@ == detail@,
{
    InjectError::LaunchFailed { program: send_keys_label(target), detail: detail.to_owned() }
}

} // verus!
