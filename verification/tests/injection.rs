use texpand::inject::{
    send_keys_failure, send_keys_launch_failure, tmux_send_keys_args, uinput_command, ClipboardInjector, InjectError,
    InjectionMethod, TmuxInjectOptions, TmuxInjector, UinputInjector,
};

/// What the clipboard injector does: open the clipboard, then set its text.
fn clipboard_inject(text: &str) -> Result<(), InjectError> {
    let mut clipboard = arboard::Clipboard::new()
        .map_err(|e| InjectError::ClipboardUnavailable(e.to_string()))?;
    clipboard
        .set_text(text)
        .map_err(|e| InjectError::ClipboardRejected(e.to_string()))
}

#[test]
fn test_clipboard_inject() {
    let injector = ClipboardInjector;
    assert_eq!(injector.method(), InjectionMethod::Clipboard);
    let result = clipboard_inject("test text");
    // May fail if no display server, but shouldn't crash
    if let Err(e) = result {
        assert!(e.message().contains("clipboard"));
    }
}

#[test]
fn test_injection_method_display() {
    assert_eq!(format!("{:?}", InjectionMethod::Uinput), "Uinput");
    assert_eq!(format!("{:?}", InjectionMethod::Clipboard), "Clipboard");
}

#[test]
fn test_tmux_send_keys_args_without_target() {
    let args = tmux_send_keys_args("hello", None).unwrap();
    assert_eq!(args, vec!["send-keys", "-l", "hello"]);
}

#[test]
fn test_tmux_send_keys_args_with_target() {
    let args = tmux_send_keys_args("hello", Some("%1")).unwrap();
    assert_eq!(args, vec!["send-keys", "-t", "%1", "-l", "hello"]);
}

#[test]
fn test_tmux_send_keys_args_rejects_empty_target() {
    let err = tmux_send_keys_args("hello", Some("")).unwrap_err();
    assert!(err.message().contains("target pane cannot be empty"));
}

#[test]
fn test_injector_fallback_order() {
    let uinput = UinputInjector;
    assert!(matches!(uinput.method(), InjectionMethod::Uinput));

    let tmux = TmuxInjector;
    assert!(matches!(tmux.method(), InjectionMethod::TmuxSendKeys));

    let clipboard = ClipboardInjector;
    assert!(matches!(clipboard.method(), InjectionMethod::Clipboard));
}

#[test]
fn tmux_args_keep_text_verbatim() {
    let args = tmux_send_keys_args("a -t b; echo 'x'", Some("main:1.2")).unwrap();
    assert_eq!(args, vec!["send-keys", "-t", "main:1.2", "-l", "a -t b; echo 'x'"]);
    let args = tmux_send_keys_args("", None).unwrap();
    assert_eq!(args, vec!["send-keys", "-l", ""]);
}

#[test]
fn empty_target_error_message_is_exact() {
    let err = tmux_send_keys_args("x", Some("")).unwrap_err();
    assert!(matches!(err, InjectError::EmptyTargetPane));
    assert_eq!(err.message(), "tmux target pane cannot be empty");
}

#[test]
fn default_options_target_current_pane() {
    let options = TmuxInjectOptions::default();
    assert!(options.target_pane.is_none());
    let args = tmux_send_keys_args("hi", options.target_pane.as_deref()).unwrap();
    assert_eq!(args, vec!["send-keys", "-l", "hi"]);
}

#[test]
fn uinput_prefers_tmux_inside_tmux() {
    let (program, args) = uinput_command("hello", true, true).unwrap();
    assert_eq!(program, "tmux");
    assert_eq!(args, vec!["send-keys", "-l", "hello"]);
    let (program, _) = uinput_command("hello", true, false).unwrap();
    assert_eq!(program, "tmux");
}

#[test]
fn uinput_falls_back_to_ydotool() {
    let (program, args) = uinput_command("hello", false, true).unwrap();
    assert_eq!(program, "ydotool");
    assert_eq!(args, vec!["type", "hello"]);
}

#[test]
fn uinput_without_any_method_fails() {
    let err = uinput_command("hello", false, false).unwrap_err();
    assert!(matches!(err, InjectError::NoMethodAvailable));
    assert_eq!(
        err.message(),
        "No injection method available. Install ydotool or run inside tmux."
    );
}

#[test]
fn send_keys_failure_reports_trimmed_stderr() {
    let err = send_keys_failure(None, "  can't find pane: %9\n");
    assert_eq!(err.message(), "tmux send-keys exited with error: can't find pane: %9");
    let err = send_keys_failure(None, " \n\t");
    assert_eq!(err.message(), "tmux send-keys exited with error");
}

#[test]
fn send_keys_failure_names_the_target_pane() {
    let err = send_keys_failure(Some("%1"), "");
    assert_eq!(err.message(), "tmux send-keys (target pane %1) exited with error");
    let err = send_keys_failure(Some("%1"), "no such pane\n");
    assert_eq!(err.message(), "tmux send-keys (target pane %1) exited with error: no such pane");
    let err = send_keys_launch_failure(Some("main:1"), "not found");
    assert_eq!(err.message(), "tmux send-keys (target pane main:1) failed: not found");
    let err = send_keys_launch_failure(None, "not found");
    assert_eq!(err.message(), "tmux send-keys failed: not found");
}

#[test]
fn launch_and_clipboard_messages() {
    let e = InjectError::LaunchFailed {
        program: "ydotool".to_string(),
        detail: "not found".to_string(),
    };
    assert_eq!(e.message(), "ydotool failed: not found");
    let e = InjectError::ClipboardUnavailable("no display".to_string());
    assert_eq!(e.message(), "Failed to open clipboard: no display");
    let e = InjectError::ClipboardRejected("busy".to_string());
    assert_eq!(e.message(), "Failed to set clipboard text: busy");
    let e = InjectError::CommandFailed("ydotool exited with error".to_string());
    assert_eq!(e.message(), "ydotool exited with error");
}
