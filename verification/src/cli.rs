//! The command line: what the user may ask for, and what is done about it.

use vstd::prelude::*;

use crate::license::{begin, pro_activate, pro_update, update_notice, ActivateStep, Stage};
use crate::report::{out, Line, Said};

verus! {

// ---------------------------------------------------------------------------
// Arguments
// ---------------------------------------------------------------------------

/// The arguments of the program.
#[derive(Debug, PartialEq, Eq)]
pub struct Cli {
    /// The command, if one is given.
    pub command: Option<Command>,
    /// The directory to open in the window.
    pub path: Option<String>,
    /// Whether to serve the Model Context Protocol, whatever the command.
    pub mcp_flag: bool,
}

/// A command.
#[allow(inconsistent_fields)]
#[derive(Debug, PartialEq, Eq)]
pub enum Command {
    /// Enforce the rules of a directory.
    Check {
        /// The directory.
        path: String,
    },
    /// Compare a directory with a saved baseline.
    Gate {
        /// Whether to save the baseline instead.
        save: bool,
        /// The directory.
        path: String,
    },
    /// Report the quality of a directory.
    Health {
        /// The directory.
        path: String,
    },
    /// Open the window.
    Scan {
        /// The directory to open.
        path: Option<String>,
    },
    /// Serve the Model Context Protocol.
    Mcp,
    /// Manage language plugins.
    Plugin {
        /// What to do.
        action: PluginAction,
    },
    /// Control usage analytics.
    Analytics {
        /// What to do; nothing shows the state.
        action: Option<AnalyticsAction>,
    },
    /// Purchase Pro.
    Login,
    /// Manage Pro.
    Pro {
        /// What to do.
        action: ProAction,
    },
}

/// What to do with Pro.
#[derive(Debug, PartialEq, Eq)]
pub enum ProAction {
    /// Activate it.
    Activate {
        /// The key, or the path of a key file.
        key: String,
    },
    /// Show its status.
    Status,
    /// Remove it.
    Deactivate,
    /// Update it.
    Update,
}

/// What to do with usage analytics.
#[derive(Debug, PartialEq, Eq, Clone, Copy)]
pub enum AnalyticsAction {
    /// Turn them on.
    On,
    /// Turn them off.
    Off,
}

/// What to do with plugins.
#[derive(Debug, PartialEq, Eq)]
pub enum PluginAction {
    /// List them.
    List,
    /// Install all standard ones.
    AddStandard,
    /// Install one.
    Add {
        /// Its name.
        name: String,
    },
    /// Remove one.
    Remove {
        /// Its name.
        name: String,
    },
    /// Create a template for a new one.
    Init {
        /// Its name.
        name: String,
    },
    /// Check the directory of one.
    Validate {
        /// The directory.
        dir: String,
    },
}

// ---------------------------------------------------------------------------
// Dispatch
// ---------------------------------------------------------------------------

/// What the program does.
#[derive(Debug, PartialEq, Eq)]
pub enum Task {
    /// Serve the Model Context Protocol.
    Serve,
    /// Check a directory.
    Check(String),
    /// Gate a directory, or save its baseline.
    Gate(String, bool),
    /// Report the health of a directory.
    Health(String),
    /// Manage plugins.
    Plugin(PluginTask),
    /// Control analytics.
    Analytics(Option<AnalyticsAction>),
    /// Say these lines, then open a page.
    Login(Vec<Line>, String),
    /// Manage Pro.
    Pro(ProTask),
    /// Open the window on a directory, if one is given.
    Gui(Option<String>),
}

/// What [`Task`] holds.
pub enum Duty {
    Serve,
    Check(Seq<char>),
    Gate(Seq<char>, bool),
    Health(Seq<char>),
    Plugin(PluginDuty),
    Analytics(Option<AnalyticsAction>),
    Login(Seq<Said>, Seq<char>),
    Pro(ProDuty),
    Gui(Option<Seq<char>>),
}

/// What is done with Pro.
#[derive(Debug, PartialEq, Eq)]
pub enum ProTask {
    /// Activate it, from this step on.
    Activate(ActivateStep),
    /// Gather its status.
    Status,
    /// Remove it.
    Deactivate,
    /// Say these lines.
    Say(Vec<Line>),
}

/// What a [`ProTask`] holds.
pub enum ProDuty {
    Activate(Stage),
    Status,
    Deactivate,
    Say(Seq<Said>),
}

/// What a named plugin is wanted for.
#[derive(Debug, PartialEq, Eq, Clone, Copy)]
pub enum PluginWork {
    /// To create its template.
    Init,
    /// To install it.
    Add,
    /// To remove it.
    Remove,
}

/// What is done with plugins.
#[derive(Debug, PartialEq, Eq)]
pub enum PluginTask {
    /// List those that are installed.
    List,
    /// Write the embedded ones, and fetch the grammars that are missing.
    Sync,
    /// Check this directory.
    Validate(String),
    /// Find the place of this plugin, for this work.
    Locate(String, PluginWork),
}

/// What a [`PluginTask`] holds.
pub enum PluginDuty {
    List,
    Sync,
    Validate(Seq<char>),
    Locate(Seq<char>, PluginWork),
}

impl DeepView for ProTask {
    type V = ProDuty;

    open spec fn deep_view(&self) -> ProDuty {
        match self {
            ProTask::Activate(step) => ProDuty::Activate(step.deep_view()),
            ProTask::Status => ProDuty::Status,
            ProTask::Deactivate => ProDuty::Deactivate,
            ProTask::Say(lines) => ProDuty::Say(lines.deep_view()),
        }
    }
}

impl DeepView for PluginTask {
    type V = PluginDuty;

    open spec fn deep_view(&self) -> PluginDuty {
        match self {
            PluginTask::List => PluginDuty::List,
            PluginTask::Sync => PluginDuty::Sync,
            PluginTask::Validate(dir) => PluginDuty::Validate(dir@),
            PluginTask::Locate(name, work) => PluginDuty::Locate(name@, *work),
        }
    }
}

impl DeepView for Task {
    type V = Duty;

    open spec fn deep_view(&self) -> Duty {
        match self {
            Task::Serve => Duty::Serve,
            Task::Check(path) => Duty::Check(path@),
            Task::Gate(path, save) => Duty::Gate(path@, *save),
            Task::Health(path) => Duty::Health(path@),
            Task::Plugin(task) => Duty::Plugin(task.deep_view()),
            Task::Analytics(action) => Duty::Analytics(*action),
            Task::Login(lines, url) => Duty::Login(lines.deep_view(), url@),
            Task::Pro(task) => Duty::Pro(task.deep_view()),
            Task::Gui(path) => Duty::Gui(path.deep_view()),
        }
    }
}

/// What an action on Pro asks for.
pub open spec fn pro_duty(action: ProAction) -> ProDuty {
    match action {
        ProAction::Activate { key } => ProDuty::Activate(begin(key@)),
        ProAction::Status => ProDuty::Status,
        ProAction::Deactivate => ProDuty::Deactivate,
        ProAction::Update => ProDuty::Say(update_notice()),
    }
}

/// What an action on plugins asks for.
pub open spec fn plugin_duty(action: PluginAction) -> PluginDuty {
    match action {
        PluginAction::List => PluginDuty::List,
        PluginAction::AddStandard => PluginDuty::Sync,
        PluginAction::Add { name } => PluginDuty::Locate(name@, PluginWork::Add),
        PluginAction::Remove { name } => PluginDuty::Locate(name@, PluginWork::Remove),
        PluginAction::Init { name } => PluginDuty::Locate(name@, PluginWork::Init),
        PluginAction::Validate { dir } => PluginDuty::Validate(dir@),
    }
}

/// What a command asks for.
pub open spec fn command_duty(command: Command) -> Duty {
    match command {
        Command::Check { path } => Duty::Check(path@),
        Command::Gate { save, path } => Duty::Gate(path@, save),
        Command::Health { path } => Duty::Health(path@),
        Command::Scan { path } => Duty::Gui(path.deep_view()),
        Command::Mcp => Duty::Serve,
        Command::Plugin { action } => Duty::Plugin(plugin_duty(action)),
        Command::Analytics { action } => Duty::Analytics(action),
        Command::Login => Duty::Login(login_notice(), "https://sentrux.dev/pro"@),
        Command::Pro { action } => Duty::Pro(pro_duty(action)),
    }
}

/// What the arguments ask for. The flag wins over any command; without a
/// command the window opens.
pub open spec fn duty(cli: Cli) -> Duty {
    if cli.mcp_flag {
        Duty::Serve
    } else {
        match cli.command {
            Some(command) => command_duty(command),
            None => Duty::Gui(cli.path.deep_view()),
        }
    }
}

/// Turns an action on Pro into what is done.
pub fn run_pro(action: ProAction) -> (r: ProTask)
    ensures
        r.deep_view() == pro_duty(action),
{
    match action {
        ProAction::Activate { key } => ProTask::Activate(pro_activate(&key)),
        ProAction::Status => ProTask::Status,
        ProAction::Deactivate => ProTask::Deactivate,
        ProAction::Update => ProTask::Say(pro_update()),
    }
}

/// Turns an action on plugins into what is done.
pub fn run_plugin(action: PluginAction) -> (r: PluginTask)
    ensures
        r.deep_view() == plugin_duty(action),
{
    match action {
        PluginAction::List => PluginTask::List,
        PluginAction::AddStandard => PluginTask::Sync,
        PluginAction::Add { name } => PluginTask::Locate(name, PluginWork::Add),
        PluginAction::Remove { name } => PluginTask::Locate(name, PluginWork::Remove),
        PluginAction::Init { name } => PluginTask::Locate(name, PluginWork::Init),
        PluginAction::Validate { dir } => PluginTask::Validate(dir),
    }
}

/// Turns the arguments into what is done.
pub fn run(cli: Cli) -> (r: Task)
    ensures
        r.deep_view() == duty(cli),
{
    if cli.mcp_flag {
        return Task::Serve;
    }
    match cli.command {
        Some(Command::Check { path }) => Task::Check(path),
        Some(Command::Gate { save, path }) => Task::Gate(path, save),
        Some(Command::Health { path }) => Task::Health(path),
        Some(Command::Mcp) => Task::Serve,
        Some(Command::Plugin { action }) => Task::Plugin(run_plugin(action)),
        Some(Command::Analytics { action }) => Task::Analytics(action),
        Some(Command::Login) => Task::Login(run_login(), "https://sentrux.dev/pro".to_owned()),
        Some(Command::Pro { action }) => Task::Pro(run_pro(action)),
        Some(Command::Scan { path }) => Task::Gui(path),
        None => Task::Gui(cli.path),
    }
}

// ---------------------------------------------------------------------------
// Login
// ---------------------------------------------------------------------------

/// How Pro is purchased and activated.
pub open spec fn login_notice() -> Seq<Said> {
    seq![
        Said::Out(""@),
        Said::Out("  Sentrux Pro — purchase at https://sentrux.dev/pro"@),
        Said::Out(""@),
        Said::Out("  After purchase, activate with:"@),
        Said::Out("    sentrux pro activate <license-key>"@),
        Said::Out(""@),
        Said::Out("  Or paste your license key file:"@),
        Said::Out("    sentrux pro activate /path/to/license.key"@),
        Said::Out(""@),
    ]
}

/// Tells how Pro is purchased and activated.
pub fn run_login() -> (r: Vec<Line>)
    ensures
        r.deep_view() == login_notice(),
{
    let lines = vec![
        out(""),
        out("  Sentrux Pro — purchase at https://sentrux.dev/pro"),
        out(""),
        out("  After purchase, activate with:"),
        out("    sentrux pro activate <license-key>"),
        out(""),
        out("  Or paste your license key file:"),
        out("    sentrux pro activate /path/to/license.key"),
        out(""),
    ];
    assert(lines.deep_view() =~= login_notice());
    lines
}

// ---------------------------------------------------------------------------
// Laws
// ---------------------------------------------------------------------------

/// The flag for the Model Context Protocol wins over any command and any path.
/// Without it and without a command, the window opens on the given path.
pub proof fn law_flag_and_window(cli: Cli)
    ensures
        cli.mcp_flag ==> duty(cli) is Serve,
        !cli.mcp_flag && cli.command is None ==> duty(cli) is Gui && duty(cli)->Gui_0.is_some()
            == cli.path.is_some() && (cli.path is Some ==> duty(cli)->Gui_0
            == Some(cli.path->Some_0@)),
        !cli.mcp_flag && cli.command is Some ==> duty(cli) == command_duty(cli.command->Some_0),
{
}

/// Each command does its own work, and on the path that it was given. The
/// program serves, or opens the window, for the commands that ask for it and for
/// no others.
pub proof fn law_commands_do_their_own_work(command: Command, path: Seq<char>, save: bool)
    ensures
        command_duty(command) == Duty::Check(path) <==> command is Check && command->Check_path@
            == path,
        command_duty(command) == Duty::Gate(path, save) <==> command is Gate && command->Gate_path@
            == path && command->save == save,
        command_duty(command) == Duty::Health(path) <==> command is Health && command->Health_path@
            == path,
        command_duty(command) == Duty::Gui(Some(path)) <==> command is Scan && command->Scan_path
            is Some && command->Scan_path->Some_0@ == path,
        command_duty(command) == Duty::Gui(None) <==> command is Scan && command->Scan_path is None,
        command_duty(command) is Serve <==> command is Mcp,
        command_duty(command) is Plugin <==> command is Plugin,
        command_duty(command) is Login <==> command is Login,
        command_duty(command) is Pro <==> command is Pro,
        command is Analytics ==> command_duty(command) == Duty::Analytics(
            command->Analytics_action,
        ),
        command is Plugin ==> command_duty(command) == Duty::Plugin(
            plugin_duty(command->Plugin_action),
        ),
        command is Pro ==> command_duty(command) == Duty::Pro(pro_duty(command->Pro_action)),
{
}

/// Each action on plugins does its own work, on the plugin that it names.
pub proof fn law_plugin_actions_do_their_own_work(action: PluginAction, name: Seq<char>)
    ensures
        plugin_duty(action) is List <==> action is List,
        plugin_duty(action) is Sync <==> action is AddStandard,
        plugin_duty(action) == PluginDuty::Validate(name) <==> action is Validate && action->dir@
            == name,
        plugin_duty(action) == PluginDuty::Locate(name, PluginWork::Add) <==> action is Add
            && action->Add_name@ == name,
        plugin_duty(action) == PluginDuty::Locate(name, PluginWork::Remove) <==> action is Remove
            && action->Remove_name@ == name,
        plugin_duty(action) == PluginDuty::Locate(name, PluginWork::Init) <==> action is Init
            && action->Init_name@ == name,
{
}

/// Each action on Pro does its own work; only activation takes a key.
pub proof fn law_pro_actions_do_their_own_work(action: ProAction)
    ensures
        action is Activate ==> pro_duty(action) == ProDuty::Activate(begin(action->key@)),
        pro_duty(action) is Activate <==> action is Activate,
        pro_duty(action) is Status <==> action is Status,
        pro_duty(action) is Deactivate <==> action is Deactivate,
        pro_duty(action) is Say <==> action is Update,
{
}

} // verus!
