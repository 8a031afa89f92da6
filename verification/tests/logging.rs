use archetype_ecs::log::{ANSIColor, LogMessage, Severity};
use archetype_ecs::viewport::Viewport;

#[test]
fn severities_have_their_colors() {
    assert_eq!(Severity::Debug.get_color(), ANSIColor::Cyan);
    assert_eq!(Severity::Info.get_color(), ANSIColor::Green);
    assert_eq!(Severity::Warn.get_color(), ANSIColor::Yellow);
    assert_eq!(Severity::Error.get_color(), ANSIColor::BrightRed);
    assert_eq!(Severity::Fatal.get_color(), ANSIColor::Red);
    assert_eq!(Severity::Silent.get_color(), ANSIColor::Reset);
}

#[test]
fn severities_have_their_names() {
    assert_eq!(Severity::Debug.name(), "DEBUG");
    assert_eq!(Severity::Info.name(), "INFO");
    assert_eq!(Severity::Warn.name(), "WARN");
    assert_eq!(Severity::Error.name(), "ERROR");
    assert_eq!(Severity::Fatal.name(), "FATAL");
    assert_eq!(Severity::Silent.name(), "NONE");
}

#[test]
fn threshold_admits_equal_and_graver_messages() {
    assert!(Severity::Debug.admits(Severity::Debug));
    assert!(Severity::Debug.admits(Severity::Fatal));
    assert!(Severity::Warn.admits(Severity::Warn));
    assert!(Severity::Warn.admits(Severity::Error));
    assert!(!Severity::Warn.admits(Severity::Info));
    assert!(!Severity::Fatal.admits(Severity::Error));
    assert!(!Severity::Silent.admits(Severity::Fatal));
    assert!(Severity::Silent.admits(Severity::Silent));
    // the derived order is the same one
    assert!(Severity::Debug < Severity::Info);
    assert!(Severity::Fatal < Severity::Silent);
}

#[test]
fn starter_sequences_are_ansi_escapes() {
    assert_eq!(ANSIColor::Black.starter_sequence(), "\x1b[30m");
    assert_eq!(ANSIColor::Red.starter_sequence(), "\x1b[31m");
    assert_eq!(ANSIColor::Green.starter_sequence(), "\x1b[32m");
    assert_eq!(ANSIColor::Yellow.starter_sequence(), "\x1b[33m");
    assert_eq!(ANSIColor::Blue.starter_sequence(), "\x1b[34m");
    assert_eq!(ANSIColor::Magenta.starter_sequence(), "\x1b[35m");
    assert_eq!(ANSIColor::Cyan.starter_sequence(), "\x1b[36m");
    assert_eq!(ANSIColor::White.starter_sequence(), "\x1b[37m");
    assert_eq!(ANSIColor::BrightBlack.starter_sequence(), "\x1b[90m");
    assert_eq!(ANSIColor::BrightRed.starter_sequence(), "\x1b[91m");
    assert_eq!(ANSIColor::BrightGreen.starter_sequence(), "\x1b[92m");
    assert_eq!(ANSIColor::BrightYellow.starter_sequence(), "\x1b[93m");
    assert_eq!(ANSIColor::BrightBlue.starter_sequence(), "\x1b[94m");
    assert_eq!(ANSIColor::BrightMagenta.starter_sequence(), "\x1b[95m");
    assert_eq!(ANSIColor::BrightCyan.starter_sequence(), "\x1b[96m");
    assert_eq!(ANSIColor::BrightWhite.starter_sequence(), "\x1b[97m");
    assert_eq!(ANSIColor::Reset.starter_sequence(), "\x1b[0m");
}

#[test]
fn colorize_wraps_the_text() {
    assert_eq!(ANSIColor::Red.colorize("stop"), "\x1b[31mstop\x1b[0m");
    assert_eq!(ANSIColor::Reset.colorize(""), "\x1b[0m\x1b[0m");
}

#[test]
fn plain_line_has_prefix_tag_message_and_line_feed() {
    let mut message = LogMessage::new("", "engine started", Severity::Info);
    assert_eq!(message.formatted(false), "[INFO] engine started\n");
    let mut message = LogMessage::new("12:00 ", "disk full", Severity::Fatal);
    assert_eq!(message.formatted(false), "12:00 [FATAL] disk full\n");
    let mut message = LogMessage::new("", "", Severity::Silent);
    assert_eq!(message.formatted(false), "[NONE] \n");
}

#[test]
fn colored_line_colors_the_tag_only() {
    let mut message = LogMessage::new("> ", "low memory", Severity::Warn);
    assert_eq!(message.formatted(true), "> \x1b[33m[WARN]\x1b[0m low memory\n");
    let mut message = LogMessage::new("", "x", Severity::Debug);
    assert_eq!(message.formatted(true), "\x1b[36m[DEBUG]\x1b[0m x\n");
}

#[test]
fn renderings_are_kept_and_independent() {
    let mut message = LogMessage::new("", "m", Severity::Error);
    let colored = message.formatted(true);
    let plain = message.formatted(false);
    assert_eq!(colored, "\x1b[91m[ERROR]\x1b[0m m\n");
    assert_eq!(plain, "[ERROR] m\n");
    assert_eq!(message.formatted(true), colored);
    assert_eq!(message.formatted(false), plain);
}

#[test]
fn viewport_starts_at_the_origin() {
    let viewport = Viewport::make_viewport(640, 480);
    assert_eq!(viewport, Viewport { x: 0, y: 0, width: 640, height: 480 });
}

#[test]
fn update_size_keeps_the_corner() {
    let mut viewport = Viewport { x: 3, y: 4, width: 1, height: 2 };
    viewport.update_size(800, 600);
    assert_eq!(viewport, Viewport { x: 3, y: 4, width: 800, height: 600 });
    viewport.update_size(-1, 0);
    assert_eq!(viewport, Viewport { x: 3, y: 4, width: -1, height: 0 });
}
