//! What extensions offer, and how calls are handed to them.

use crate::db::Axil;
use crate::error::Result;
use crate::json::Value;
use vstd::prelude::*;

verus! {

/// A capability on top of the engines. It owns tables by their prefixes, and may
/// offer commands and tools. All but the id has a default.
pub trait Extension {
    /// The id, which is unique in a database.
    fn id(&self) -> &str;

    /// The name that is shown: the id, unless another is given.
    fn display_name(&self) -> (r: &str)
        default_ensures
            call_ensures(Self::id, (self,), r),
    {
        self.id()
    }

    /// The prefixes of the tables that the extension owns.
    fn table_prefixes(&self) -> (r: Vec<String>)
        default_ensures
            r@.len() == 0,
    {
        Vec::new()
    }

    /// The commands that the extension offers.
    fn cli_commands(&self) -> (r: Option<CliSurface>)
        default_ensures
            r is None,
    {
        None
    }

    /// The tools that the extension offers.
    fn mcp_tools(&self) -> (r: Option<McpSurface>)
        default_ensures
            r is None,
    {
        None
    }

    /// What the extension adds to the start-up summary.
    fn boot_block(&self, _db: &Axil) -> (r: Option<String>)
        default_ensures
            r is None,
    {
        None
    }

    /// Brings what the extension holds up to date.
    fn refresh(&self, _db: &Axil, _opts: RefreshOpts) -> (r: Result<RefreshReport>)
        default_ensures
            r matches Ok(x) && x.is_blank(),
    {
        Ok(RefreshReport::default())
    }

    /// What the extension knows of a file.
    fn recall_for_file(&self, _db: &Axil, _path: &str) -> (r: Result<Vec<Hit>>)
        default_ensures
            r matches Ok(hits) && hits@.len() == 0,
    {
        Ok(Vec::new())
    }

    /// Runs a command. By default the call is declined, and the caller runs its own.
    fn handle_cli(&self, _db: &Axil, _invocation: &CliInvocation) -> (r: Result<Dispatch<CliOutput>>)
        default_ensures
            r matches Ok(d) && d is NotHandled,
    {
        Ok(Dispatch::NotHandled)
    }

    /// Runs a tool. By default the call is declined, and the caller runs its own.
    fn handle_mcp(&self, _db: &Axil, _call: &McpCall) -> (r: Result<Dispatch<Value>>)
        default_ensures
            r matches Ok(d) && d is NotHandled,
    {
        Ok(Dispatch::NotHandled)
    }
}

/// Whether an extension took a call.
#[derive(Clone, Debug, PartialEq, Eq)]
pub enum Dispatch<T> {
    /// It did, and this is what came out.
    Handled(T),
    /// It declined.
    NotHandled,
}

impl<T> Dispatch<T> {
    /// Whether the call was taken.
    pub fn is_handled(&self) -> (r: bool)
        ensures
            r == (self is Handled),
    {
        match self {
            Dispatch::Handled(_) => true,
            Dispatch::NotHandled => false,
        }
    }

    /// What came out, where the call was taken.
    pub fn handled(self) -> (r: Option<T>)
        ensures
            r == match self {
                Dispatch::Handled(v) => Some(v),
                Dispatch::NotHandled => None,
            },
    {
        match self {
            Dispatch::Handled(v) => Some(v),
            Dispatch::NotHandled => None,
        }
    }
}

/// A command that is handed to an extension.
#[derive(Clone, Debug)]
pub struct CliInvocation {
    /// The names of the command and its subcommands.
    pub command_path: Vec<String>,
    /// What follows them.
    pub args: Vec<String>,
    /// What was piped in.
    pub stdin: Option<String>,
}

impl CliInvocation {
    /// A command.
    pub fn new(command_path: Vec<String>, args: Vec<String>, stdin: Option<String>) -> (r: Self)
        ensures
            r == (CliInvocation { command_path, args, stdin }),
    {
        CliInvocation { command_path, args, stdin }
    }
}

/// What a command gives back.
#[derive(Clone, Debug)]
pub struct CliOutput {
    /// 0 where all went well.
    pub exit_code: i32,
    pub stdout: String,
    pub stderr: String,
}

impl CliOutput {
    /// All went well.
    pub fn ok(stdout: String) -> (r: Self)
        ensures
            r.exit_code == 0,
            r.stdout == stdout,
            r.stderr@.len() == 0,
    {
        CliOutput { exit_code: 0, stdout, stderr: String::new() }
    }

    /// Something went wrong.
    pub fn err(exit_code: i32, stderr: String) -> (r: Self)
        ensures
            r.exit_code == exit_code,
            r.stdout@.len() == 0,
            r.stderr == stderr,
    {
        CliOutput { exit_code, stdout: String::new(), stderr }
    }
}

impl Default for CliOutput {
    fn default() -> (r: CliOutput)
        ensures
            r.exit_code == 0,
            r.stdout@.len() == 0,
            r.stderr@.len() == 0,
    {
        CliOutput { exit_code: 0, stdout: String::new(), stderr: String::new() }
    }
}

/// A tool call that is handed to an extension.
#[derive(Debug)]
pub struct McpCall {
    pub tool: String,
    pub params: Value,
}

impl McpCall {
    /// A tool call.
    pub fn new(tool: &str, params: Value) -> (r: Self)
        ensures
            r.tool@ == tool@,
            r.params == params,
    {
        McpCall { tool: tool.to_owned(), params }
    }
}

/// A command that an extension offers.
#[derive(Clone, Debug)]
#[non_exhaustive]
pub struct CliSurface {
    pub command: String,
    pub about: String,
    pub subcommands: Vec<CliSubcommand>,
}

impl CliSurface {
    /// A command without subcommands.
    pub fn new(command: &str, about: &str) -> (r: Self)
        ensures
            r.command@ == command@,
            r.about@ == about@,
            r.subcommands@.len() == 0,
    {
        CliSurface {
            command: command.to_owned(),
            about: about.to_owned(),
            subcommands: Vec::new(),
        }
    }

    /// The command with one more subcommand.
    pub fn subcommand(self, sub: CliSubcommand) -> (r: Self)
        ensures
            r.command == self.command,
            r.about == self.about,
            r.subcommands@ == self.subcommands@.push(sub),
    {
        let mut s = self;
        s.subcommands.push(sub);
        s
    }

    /// The command with more subcommands.
    pub fn subcommands(self, subs: Vec<CliSubcommand>) -> (r: Self)
        ensures
            r.command == self.command,
            r.about == self.about,
            r.subcommands@ == self.subcommands@ + subs@,
    {
        let mut s = self;
        let mut more = subs;
        s.subcommands.append(&mut more);
        s
    }
}

/// A subcommand.
#[derive(Clone, Debug)]
#[non_exhaustive]
pub struct CliSubcommand {
    pub name: String,
    pub about: String,
    pub args: Vec<CliArg>,
}

impl CliSubcommand {
    /// A subcommand without arguments.
    pub fn new(name: &str, about: &str) -> (r: Self)
        ensures
            r.name@ == name@,
            r.about@ == about@,
            r.args@.len() == 0,
    {
        CliSubcommand { name: name.to_owned(), about: about.to_owned(), args: Vec::new() }
    }

    /// The subcommand with one more argument.
    pub fn arg(self, arg: CliArg) -> (r: Self)
        ensures
            r.name == self.name,
            r.about == self.about,
            r.args@ == self.args@.push(arg),
    {
        let mut s = self;
        s.args.push(arg);
        s
    }

    /// The subcommand with more arguments.
    pub fn args(self, args: Vec<CliArg>) -> (r: Self)
        ensures
            r.name == self.name,
            r.about == self.about,
            r.args@ == self.args@ + args@,
    {
        let mut s = self;
        let mut more = args;
        s.args.append(&mut more);
        s
    }
}

/// An argument.
#[derive(Clone, Debug)]
#[non_exhaustive]
pub struct CliArg {
    pub name: String,
    pub about: String,
    pub required: bool,
    pub takes_value: bool,
}

impl CliArg {
    /// An argument that may be left out and takes no value.
    pub fn new(name: &str, about: &str) -> (r: Self)
        ensures
            r.name@ == name@,
            r.about@ == about@,
            !r.required,
            !r.takes_value,
    {
        CliArg {
            name: name.to_owned(),
            about: about.to_owned(),
            required: false,
            takes_value: false,
        }
    }

    /// The argument, required or not.
    pub fn required(self, required: bool) -> (r: Self)
        ensures
            r == (CliArg { required, ..self }),
    {
        CliArg { required, ..self }
    }

    /// The argument, with a value or without.
    pub fn takes_value(self, takes_value: bool) -> (r: Self)
        ensures
            r == (CliArg { takes_value, ..self }),
    {
        CliArg { takes_value, ..self }
    }
}

/// The tools that an extension offers.
#[derive(Debug)]
pub struct McpSurface {
    pub tools: Vec<McpTool>,
}

impl McpSurface {
    /// Tools.
    pub fn new(tools: Vec<McpTool>) -> (r: Self)
        ensures
            r.tools == tools,
    {
        McpSurface { tools }
    }
}

/// A tool.
#[derive(Debug)]
#[non_exhaustive]
pub struct McpTool {
    pub name: String,
    pub description: String,
    pub input_schema: Value,
}

impl McpTool {
    /// A tool with the schema of its parameters.
    pub fn new(name: &str, description: &str, input_schema: Value) -> (r: Self)
        ensures
            r.name@ == name@,
            r.description@ == description@,
            r.input_schema == input_schema,
    {
        McpTool { name: name.to_owned(), description: description.to_owned(), input_schema }
    }
}

/// How an extension is brought up to date.
#[derive(Clone, Debug)]
#[non_exhaustive]
pub struct RefreshOpts {
    /// Only what is out of date.
    pub if_stale: bool,
    /// Only what belongs to a directory.
    pub path: Option<String>,
}

impl Default for RefreshOpts {
    fn default() -> (r: RefreshOpts)
        ensures
            !r.if_stale,
            r.path is None,
    {
        RefreshOpts { if_stale: false, path: None }
    }
}

impl RefreshOpts {
    /// Everything.
    pub fn new() -> (r: Self)
        ensures
            !r.if_stale,
            r.path is None,
    {
        RefreshOpts { if_stale: false, path: None }
    }

    /// The options, for what is out of date or for everything.
    pub fn if_stale(self, if_stale: bool) -> (r: Self)
        ensures
            r == (RefreshOpts { if_stale, ..self }),
    {
        RefreshOpts { if_stale, ..self }
    }

    /// The options, for a directory.
    pub fn path(self, path: &str) -> (r: Self)
        ensures
            r.if_stale == self.if_stale,
            r.path matches Some(p) && p@ == path@,
    {
        RefreshOpts { path: Some(path.to_owned()), ..self }
    }
}

/// What bringing an extension up to date did.
#[derive(Clone, Debug)]
#[non_exhaustive]
pub struct RefreshReport {
    /// How much was looked at.
    pub inspected: usize,
    /// How much of it was out of date.
    pub stale: usize,
    /// How much of it was brought up to date.
    pub refreshed: usize,
    /// A line for each thing.
    pub details: Vec<String>,
}

impl Default for RefreshReport {
    fn default() -> (r: RefreshReport)
        ensures
            r.is_blank(),
    {
        RefreshReport { inspected: 0, stale: 0, refreshed: 0, details: Vec::new() }
    }
}

impl RefreshReport {
    /// Whether nothing was done.
    pub open spec fn is_blank(self) -> bool {
        self.inspected == 0 && self.stale == 0 && self.refreshed == 0 && self.details@.len() == 0
    }

    /// The report with these counts.
    pub fn with_counts(self, inspected: usize, stale: usize, refreshed: usize) -> (r: Self)
        ensures
            r == (RefreshReport { inspected, stale, refreshed, ..self }),
    {
        RefreshReport { inspected, stale, refreshed, ..self }
    }

    /// The report with one more line.
    pub fn detail(self, line: &str) -> (r: Self)
        ensures
            r.inspected == self.inspected,
            r.stale == self.stale,
            r.refreshed == self.refreshed,
            r.details@.len() == self.details@.len() + 1,
            r.details@.drop_last() == self.details@,
            r.details@.last()@ == line@,
    {
        let mut s = self;
        s.details.push(line.to_owned());
        assert(s.details@.drop_last() =~= self.details@);
        s
    }
}

/// A record that an extension knows of a file. The score is held by the bits of its
/// IEEE number.
#[derive(Clone, Debug)]
#[non_exhaustive]
pub struct Hit {
    pub table: String,
    pub id: String,
    pub summary: Option<String>,
    pub score: u32,
}

impl Hit {
    /// A record with its score.
    pub fn new(table: &str, id: &str, score: u32) -> (r: Self)
        ensures
            r.table@ == table@,
            r.id@ == id@,
            r.summary is None,
            r.score == score,
    {
        Hit { table: table.to_owned(), id: id.to_owned(), summary: None, score }
    }

    /// The record with a line that sums it up.
    pub fn with_summary(self, summary: &str) -> (r: Self)
        ensures
            r.table == self.table,
            r.id == self.id,
            r.score == self.score,
            r.summary matches Some(s) && s@ == summary@,
    {
        Hit { summary: Some(summary.to_owned()), ..self }
    }
}

} // verus!
