//! The integration with the Fish shell.
use vstd::prelude::*;
use vstd::string::*;

use crate::tools::path::{join_path, path_in};

verus! {

/// What Fish runs when it starts.
pub const FISH_SCRIPT: &'static str = "# Fish integration for the `a` coding agent.

status is-interactive; or exit 0

set -g __a_session_key \"$fish_pid-\"(date +%s)
set -g __a_mode once
set -g __a_ai_prompt_active 0
set -g __a_returned_text \"\"

# Records what was run, never what it printed.
function __a_preexec --on-event fish_preexec
    set -g __a_command $argv[1]
    set -g __a_command_cwd $PWD
    set -g __a_started_at (date +%s%3N)
end

function __a_postexec --on-event fish_postexec
    set -l codes $pipestatus
    set -l exit_code $codes[-1]
    set -q __a_started_at; or return
    command a __record-shell \\
        --cwd \"$__a_command_cwd\" \\
        --command \"$__a_command\" \\
        --exit-code \"$exit_code\" \\
        --started-at \"$__a_started_at\" \\
        --duration-ms \"$CMD_DURATION\" \\
        --pipe-status \"$codes\" \\
        --fish-session-key \"$__a_session_key\" &>/dev/null
    set -e __a_started_at
end

function __a_ai_right_prompt
    if test \"$__a_mode\" = multi
        echo -n \"multi · tab\"
    else
        echo -n \"once · tab\"
    end
end

# Tab switches the mode while the agent is being addressed.
function __a_handle_tab
    if test \"$__a_ai_prompt_active\" = 1
        if test \"$__a_mode\" = multi
            set -g __a_mode once
        else
            set -g __a_mode multi
        end
        commandline -f repaint
    else
        commandline -f complete
    end
end

function __a_ask
    set -lx A_FISH_AI_PROMPT $argv[1]
    command a --fish-ai --fish-session-key \"$__a_session_key\" --one-turn
end

# Opens the prompt of the agent, or goes back from it with the text typed so far.
function __a_ai_prompt
    if test \"$__a_ai_prompt_active\" = 1
        set -g __a_returned_text (commandline)
        commandline -f cancel-commandline
        commandline -f exit
        return
    end
    set -l previous $status
    set -l text (commandline)
    commandline \"\"
    while true
        set -g __a_ai_prompt_active 1
        set -g __a_returned_text \"\"
        read --local --line --prompt-str \"a> \" --right-prompt __a_ai_right_prompt --command \"$text\" answer
        set -l outcome $status
        set -g __a_ai_prompt_active 0
        set text \"\"
        if test -n \"$__a_returned_text\"
            commandline -- \"$__a_returned_text\"
            break
        end
        if test $outcome -ne 0 -o -z \"$answer\"
            break
        end
        __a_ask \"$answer\"
        test \"$__a_mode\" = multi; or break
    end
    commandline -f repaint
    return $previous
end

bind -M default \\cg __a_ai_prompt
bind -M insert \\cg __a_ai_prompt
bind -M default \\t __a_handle_tab
bind -M insert \\t __a_handle_tab
";

/// What Fish runs when it starts.
pub fn fish_script() -> (r: &'static str)
    ensures
        r@ == FISH_SCRIPT@,
{
    FISH_SCRIPT
}

/// Where the script is installed.
pub fn script_path(home: &str) -> (r: String)
    ensures
        r@ == path_in(path_in(home@, ".config/fish/conf.d"@), "a.fish"@),
{
    join_path(&join_path(home, ".config/fish/conf.d"), "a.fish")
}

} // verus!
