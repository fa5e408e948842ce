use grove::porcelain::OutputMode;
use grove::shell::{init_bash, init_fish, init_zsh, output_cd, CD_PREFIX};

#[test]
fn test_cd_prefix() {
    assert_eq!(CD_PREFIX, "__grove_cd:");
}

#[test]
fn cd_line_uses_prefix_outside_porcelain() {
    let mode = OutputMode { porcelain: false };
    assert_eq!(output_cd(&mode, "/repo/.git/wt/1"), "__grove_cd:/repo/.git/wt/1");
}

#[test]
fn cd_line_is_a_record_in_porcelain() {
    let mode = OutputMode { porcelain: true };
    assert_eq!(output_cd(&mode, "/repo/a\tb"), "cd\t/repo/a\\tb");
}

#[test]
fn init_scripts_intercept_the_cd_prefix() {
    assert!(init_bash().starts_with("# Grove shell integration for Bash"));
    assert!(init_bash().contains("if [[ \"$out\" == __grove_cd:* ]]; then"));
    assert!(init_bash().contains("\\builtin cd -- \"${out#__grove_cd:}\""));
    assert!(init_zsh().contains("compdef _g_complete g"));
    assert!(init_fish().contains("builtin cd (string replace '__grove_cd:' '' $out)"));
}
