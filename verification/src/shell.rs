//! The shell-integration scripts that `gig init` prints.
use vstd::prelude::*;
use crate::text::{contains_text, occurs_in, same_text};

verus! {

/// The zsh hook script, up to the path of the gig binary.
pub const ZSH_HOOK_HEAD: &'static str = r#"# gig shell integration (zsh)

# Save the original tab handler
if [[ -z "$_gig_original_widget" ]]; then
    _gig_original_widget="expand-or-complete"
fi

_gig_fzf_complete() {
    local cmd
    local -a tokens
    tokens=(${(z)LBUFFER})
    cmd="${tokens[1]}"

    local specs_dir="${GIG_SPECS_DIR:-$HOME/.config/gig/specs}"

    # If no gig spec for this command, fall back to default
    if [[ ! -f "$specs_dir/$cmd.toml" ]]; then
        zle "${_gig_original_widget}"
        return
    fi

    local -a args
    args=(${tokens[2,-1]})

    # If the line ends with a space, the user finished the current token
    # and expects completions for the next position. Append an empty arg
    # so that spec.completions() sees e.g. ["add", ""] instead of ["add"].
    if [[ "$LBUFFER" == *" " ]]; then
        args+=("")
    fi

    # Estimate cursor column for dropdown positioning
    # Use LBUFFER length + small offset for prompt (safe fallback)
    local indent=$((${#LBUFFER} + 2))

    # Use a temp file for the result. crossterm reads /dev/tty directly (use-dev-tty feature).
    local tmpfile=$(mktemp /tmp/gig-pick.XXXXXX)
    ""#;

/// The zsh hook script, after the path of the gig binary.
pub const ZSH_HOOK_TAIL: &'static str = r#"" pick --output "$tmpfile" --indent "$indent" "$cmd" "${args[@]}" >/dev/tty 2>/dev/tty
    local selected=$(<"$tmpfile")
    rm -f "$tmpfile"

    if [[ -n "$selected" ]]; then
        # Remove the partial word being typed
        local partial="${tokens[-1]}"
        if (( ${#tokens} > 1 )) && [[ "$LBUFFER" != *" " ]]; then
            LBUFFER="${LBUFFER%$partial}$selected "
        else
            LBUFFER="${LBUFFER% } $selected "
        fi
        zle reset-prompt
    else
        zle reset-prompt
    fi
}

zle -N _gig_fzf_complete
bindkey '^I' _gig_fzf_complete
"#;

/// The bash hook script, up to the path of the gig binary.
pub const BASH_HOOK_HEAD: &'static str = r#"# gig shell integration (bash)
_gig_completions() {
    local cmd="${COMP_WORDS[0]}"
    local cur="${COMP_WORDS[COMP_CWORD]}"
    local args="${COMP_WORDS[@]:1}"

    local IFS=$'\n'
    local completions=$(""#;

/// The bash hook script, after the path of the gig binary.
pub const BASH_HOOK_TAIL: &'static str = r#"" complete "$cmd" $args 2>/dev/null)

    local -a values
    while IFS=$'\t' read -r value desc; do
        values+=("$value")
    done <<< "$completions"

    COMPREPLY=($(compgen -W "${values[*]}" -- "$cur"))
}

# Register for known commands
_gig_register() {
    local specs_dir="${GIG_SPECS_DIR:-$HOME/.config/gig/specs}"
    if [[ -d "$specs_dir" ]]; then
        for spec_file in "$specs_dir"/*.toml; do
            local cmd=$(basename "$spec_file" .toml)
            complete -F _gig_completions "$cmd"
        done
    fi
}

_gig_register
"#;

/// The zsh hook script that runs the binary at `gig_bin`.
pub open spec fn zsh_hook_text(gig_bin: Seq<char>) -> Seq<char> {
    ZSH_HOOK_HEAD@ + gig_bin + ZSH_HOOK_TAIL@
}

/// The bash hook script that runs the binary at `gig_bin`.
pub open spec fn bash_hook_text(gig_bin: Seq<char>) -> Seq<char> {
    BASH_HOOK_HEAD@ + gig_bin + BASH_HOOK_TAIL@
}

/// The script for `shell`, running the binary at `gig_bin`; a comment for
/// a shell without integration.
pub open spec fn init_script_text(shell: Seq<char>, gig_bin: Seq<char>) -> Seq<char> {
    if shell == "zsh"@ {
        zsh_hook_text(gig_bin)
    } else if shell == "bash"@ {
        bash_hook_text(gig_bin)
    } else {
        "# Unsupported shell\n"@
    }
}

/// The zsh hook script that runs the binary at `gig_bin`.
pub fn zsh_hook(gig_bin: &str) -> (out: String)
    ensures
        out@ == zsh_hook_text(gig_bin@),
{
    let mut out = String::from_str(ZSH_HOOK_HEAD);
    out.append(gig_bin);
    out.append(ZSH_HOOK_TAIL);
    out
}

/// The bash hook script that runs the binary at `gig_bin`.
pub fn bash_hook(gig_bin: &str) -> (out: String)
    ensures
        out@ == bash_hook_text(gig_bin@),
{
    let mut out = String::from_str(BASH_HOOK_HEAD);
    out.append(gig_bin);
    out.append(BASH_HOOK_TAIL);
    out
}

/// The shell hook script for `shell`, embedding `gig_bin`, the path of
/// the gig binary.
pub fn init_script(shell: &str, gig_bin: &str) -> (out: String)
    ensures
        out@ == init_script_text(shell@, gig_bin@),
{
    if same_text(shell, "zsh") {
        zsh_hook(gig_bin)
    } else if same_text(shell, "bash") {
        bash_hook(gig_bin)
    } else {
        String::from_str("# Unsupported shell\n")
    }
}

/// The shell named by the value of `$SHELL`: zsh when it mentions `zsh`,
/// else bash when it mentions `bash`, else zsh.
pub fn detect_shell(shell_var: Option<&str>) -> (r: &'static str)
    ensures
        r@ == match shell_var {
            Some(s) => if occurs_in("zsh"@, s@) {
                "zsh"@
            } else if occurs_in("bash"@, s@) {
                "bash"@
            } else {
                "zsh"@
            },
            None => "zsh"@,
        },
{
    match shell_var {
        Some(s) => {
            if contains_text(s, "zsh") {
                "zsh"
            } else if contains_text(s, "bash") {
                "bash"
            } else {
                "zsh"
            }
        },
        None => "zsh",
    }
}

} // verus!
