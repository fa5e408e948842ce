//! Shell integration: the wrapper scripts that `init` prints, and the line
//! that asks the wrapper to change directory.

use vstd::prelude::*;
use crate::porcelain::{OutputMode, record_text};
use crate::commands::cd_record;

verus! {

/// Prefix for cd output: the shell wrapper intercepts this.
pub const CD_PREFIX: &'static str = "__grove_cd:";

/// The bash integration script.
pub fn init_bash() -> (r: &'static str)
    ensures
        r@ == INIT_BASH@,
{
    INIT_BASH
}

/// The zsh integration script.
pub fn init_zsh() -> (r: &'static str)
    ensures
        r@ == INIT_ZSH@,
{
    INIT_ZSH
}

/// The fish integration script.
pub fn init_fish() -> (r: &'static str)
    ensures
        r@ == INIT_FISH@,
{
    INIT_FISH
}

/// The line that hands `path` to the shell: in porcelain mode the `cd`
/// record, otherwise the path behind `CD_PREFIX`, which the shell wrapper
/// turns into a `cd`.
pub fn output_cd(mode: &OutputMode, path: &str) -> (r: String)
    ensures
        mode.porcelain ==> r@ == record_text(seq!["cd"@, path@]),
        !mode.porcelain ==> r@ == "__grove_cd:"@ + path@,
{
    if mode.porcelain {
        let rec = cd_record(path);
        crate::porcelain::record_line(&rec)
    } else {
        let mut r = CD_PREFIX.to_owned();
        r.append(path);
        r
    }
}

/// The text of the bash integration script.
pub const INIT_BASH: &'static str = r#"# Grove shell integration for Bash
# Add to ~/.bashrc: eval "$(grove init bash)"

# g - short alias for grove (handles cd)
g() {
    local out
    out=$(command grove "$@")
    local exit_code=$?
    
    if [[ "$out" == __grove_cd:* ]]; then
        \builtin cd -- "${out#__grove_cd:}"
    elif [[ -n "$out" ]]; then
        \builtin printf '%s\n' "$out"
    fi
    
    return $exit_code
}

# Get worktree branch names for completion
__grove_worktrees() {
    command grove complete "$1" 2>/dev/null
}

# Bash completion for g
_g_complete() {
    local cur="${COMP_WORDS[COMP_CWORD]}"
    local prev="${COMP_WORDS[COMP_CWORD-1]}"
    
    local commands="go add rm list ls prune clean done pull push path init sync help"
    
    case "${prev}" in
        go|path)
            # Complete with all worktree names (including main)
            COMPREPLY=( $(compgen -W "$(__grove_worktrees go)" -- "$cur") )
            ;;
        rm)
            # Complete with grove worktrees only (not main)
            COMPREPLY=( $(compgen -W "$(__grove_worktrees rm)" -- "$cur") )
            ;;
        add)
            # Complete with branch names (for base branch)
            local branches=$(git branch --format='%(refname:short)' 2>/dev/null)
            COMPREPLY=( $(compgen -W "${branches}" -- "$cur") )
            ;;
        g)
            # First argument - commands or worktree names (go creates if needed)
            COMPREPLY=( $(compgen -W "${commands} $(__grove_worktrees go)" -- "$cur") )
            ;;
        *)
            # Second argument - branch names (for base branch)
            local branches=$(git branch --format='%(refname:short)' 2>/dev/null)
            COMPREPLY=( $(compgen -W "${branches}" -- "$cur") )
            ;;
    esac
}

complete -F _g_complete g
"#;

/// The text of the zsh integration script.
pub const INIT_ZSH: &'static str = r#"# Grove shell integration for Zsh
# Add to ~/.zshrc: eval "$(grove init zsh)"

# g - short alias for grove (handles cd)
g() {
    local out
    out=$(command grove "$@")
    local exit_code=$?
    
    if [[ "$out" == __grove_cd:* ]]; then
        \builtin cd -- "${out#__grove_cd:}"
    elif [[ -n "$out" ]]; then
        \builtin printf '%s\n' "$out"
    fi
    
    return $exit_code
}

# Get worktree branch names for completion
__grove_worktrees() {
    command grove complete "$1" 2>/dev/null
}

# Zsh completion for g
_g_complete() {
    local commands="go add rm list ls prune clean done pull push path init sync help"
    
    case "${words[2]}" in
        go|path)
            # All worktrees including main
            local worktree_names=(${(f)"$(__grove_worktrees go)"})
            compadd -a worktree_names
            ;;
        rm)
            # Only grove worktrees (not main)
            local worktree_names=(${(f)"$(__grove_worktrees rm)"})
            compadd -a worktree_names
            ;;
        add)
            local branches=(${(f)"$(git branch --format='%(refname:short)' 2>/dev/null)"})
            compadd -a branches
            ;;
        *)
            local worktree_names=(${(f)"$(__grove_worktrees go)"})
            compadd ${=commands}
            compadd -a worktree_names
            ;;
    esac
}

compdef _g_complete g
"#;

/// The text of the fish integration script.
pub const INIT_FISH: &'static str = r#"# Grove shell integration for Fish
# Add to ~/.config/fish/config.fish: grove init fish | source

# g - short alias for grove (handles cd)
function g
    set -l out (command grove $argv)
    set -l exit_code $status
    
    if string match -q '__grove_cd:*' $out
        builtin cd (string replace '__grove_cd:' '' $out)
    else if test -n "$out"
        printf '%s\n' $out
    end
    
    return $exit_code
end

# Get worktree branch names for completion
function __grove_worktrees
    command grove complete $argv[1] 2>/dev/null
end

# Completions for g
complete -c g -f -n '__fish_use_subcommand' -a 'go add rm list ls prune clean done pull push path init sync help'
complete -c g -f -n '__fish_use_subcommand' -a '(__grove_worktrees go)'
complete -c g -f -n '__fish_seen_subcommand_from go path' -a '(__grove_worktrees go)'
complete -c g -f -n '__fish_seen_subcommand_from rm' -a '(__grove_worktrees rm)'
complete -c g -f -n '__fish_seen_subcommand_from add' -a '(git branch --format="%(refname:short)" 2>/dev/null)'
"#;

} // verus!
