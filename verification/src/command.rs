use vstd::prelude::*;
use crate::errors::TaskError;
use crate::text::{spec_digit_val, spec_is_digit, digit_val, text_eq};

verus! {

/// A status filter as it appears on the command line: a concrete status or
/// the aggregate `All`. Constructed per invocation, never stored.
#[derive(Clone, Copy, Debug, PartialEq, Eq, Structural)]
pub enum CommandStatus {
    Todo,
    Progress,
    Done,
    All,
}

/// One parsed invocation: the operation and the arguments it carries.
#[derive(Debug)]
pub enum CommandType {
    Add { desc: String },
    Edit { id: i32, desc: String },
    Delete { id: i32 },
    List { status: CommandStatus },
    Mark { id: i32, status: CommandStatus },
}

/// The mathematical shadow of `CommandType`: descriptions as character
/// sequences, so contracts can speak of parsed commands directly.
pub ghost enum SpecCommand {
    Add { desc: Seq<char> },
    Edit { id: i32, desc: Seq<char> },
    Delete { id: i32 },
    List { status: CommandStatus },
    Mark { id: i32, status: CommandStatus },
}

impl View for CommandType {
    type V = SpecCommand;

    open spec fn view(&self) -> SpecCommand {
        match self {
            CommandType::Add { desc } => SpecCommand::Add { desc: desc@ },
            CommandType::Edit { id, desc } => SpecCommand::Edit { id: *id, desc: desc@ },
            CommandType::Delete { id } => SpecCommand::Delete { id: *id },
            CommandType::List { status } => SpecCommand::List { status: *status },
            CommandType::Mark { id, status } => SpecCommand::Mark { id: *id, status: *status },
        }
    }
}

// Commands compare by content; descriptions by their characters.
impl PartialEq for CommandType {
    fn eq(&self, other: &Self) -> (r: bool) {
        match (self, other) {
            (CommandType::Add { desc: a }, CommandType::Add { desc: b }) => text_eq(
                a.as_str(),
                b.as_str(),
            ),
            (
                CommandType::Edit { id: i, desc: a },
                CommandType::Edit { id: j, desc: b },
            ) => *i == *j && text_eq(a.as_str(), b.as_str()),
            (CommandType::Delete { id: i }, CommandType::Delete { id: j }) => *i == *j,
            (CommandType::List { status: a }, CommandType::List { status: b }) => *a == *b,
            (
                CommandType::Mark { id: i, status: a },
                CommandType::Mark { id: j, status: b },
            ) => *i == *j && *a == *b,
            _ => false,
        }
    }
}

impl vstd::std_specs::cmp::PartialEqSpecImpl for CommandType {
    open spec fn obeys_eq_spec() -> bool {
        true
    }

    open spec fn eq_spec(&self, other: &CommandType) -> bool {
        match (self, other) {
            (CommandType::Add { desc: a }, CommandType::Add { desc: b }) => a@ == b@,
            (
                CommandType::Edit { id: i, desc: a },
                CommandType::Edit { id: j, desc: b },
            ) => i == j && a@ == b@,
            (CommandType::Delete { id: i }, CommandType::Delete { id: j }) => i == j,
            (CommandType::List { status: a }, CommandType::List { status: b }) => a == b,
            (
                CommandType::Mark { id: i, status: a },
                CommandType::Mark { id: j, status: b },
            ) => i == j && a == b,
            _ => false,
        }
    }
}

/// The number a digit string denotes, most significant digit first.
pub open spec fn spec_digits_val(s: Seq<char>) -> int
    decreases s.len(),
{
    if s.len() == 0 {
        0
    } else {
        spec_digits_val(s.drop_last()) * 10 + spec_digit_val(s.last())
    }
}

pub open spec fn spec_all_digits(s: Seq<char>) -> bool {
    forall|i: int| 0 <= i < s.len() ==> spec_is_digit(#[trigger] s[i])
}

/// What parsing an id token yields: an optional sign, then one or more
/// digits, denoting a value that fits a 32-bit integer; anything else is
/// `MalformedInteger`.
pub open spec fn spec_parse_i32(s: Seq<char>) -> Result<i32, TaskError> {
    let signed = s.len() > 0 && (s[0] == '+' || s[0] == '-');
    let body = if signed {
        s.subrange(1, s.len() as int)
    } else {
        s
    };
    let neg = s.len() > 0 && s[0] == '-';
    if body.len() == 0 || !spec_all_digits(body) {
        Err(TaskError::MalformedInteger)
    } else {
        let v = if neg {
            -spec_digits_val(body)
        } else {
            spec_digits_val(body)
        };
        if i32::MIN <= v <= i32::MAX {
            Ok(v as i32)
        } else {
            Err(TaskError::MalformedInteger)
        }
    }
}

/// A digit string denotes a nonnegative number.
pub(crate) proof fn lemma_digits_val_nonneg(s: Seq<char>)
    requires
        spec_all_digits(s),
    ensures
        spec_digits_val(s) >= 0,
    decreases s.len(),
{
    if s.len() > 0 {
        assert(spec_all_digits(s.drop_last()));
        lemma_digits_val_nonneg(s.drop_last());
    }
}

/// A prefix of a digit string denotes at most what the whole denotes.
pub(crate) proof fn lemma_digits_val_prefix(s: Seq<char>, k: int)
    requires
        spec_all_digits(s),
        0 <= k <= s.len(),
    ensures
        spec_digits_val(s.take(k)) <= spec_digits_val(s),
    decreases s.len(),
{
    if k == s.len() {
        assert(s.take(k) =~= s);
    } else {
        let d = s.drop_last();
        assert(spec_all_digits(d));
        assert(d.take(k) =~= s.take(k));
        lemma_digits_val_prefix(d, k);
        lemma_digits_val_nonneg(d);
    }
}

/// Parses an id token as the reference tooling does: optional sign, digits,
/// 32-bit range.
pub fn parse_id(s: &str) -> (r: Result<i32, TaskError>)
    ensures
        r == spec_parse_i32(s@),
{
    let len = s.unicode_len();
    let mut start: usize = 0;
    let mut neg = false;
    if len > 0 {
        let c0 = s.get_char(0);
        if c0 == '-' {
            neg = true;
            start = 1;
        } else if c0 == '+' {
            start = 1;
        }
    }
    proof {
        assert(s@.subrange(0, len as int) =~= s@);
    }
    if start >= len {
        return Err(TaskError::MalformedInteger);
    }
    let ghost body = s@.subrange(start as int, len as int);
    let mut acc: u64 = 0;
    let mut i: usize = start;
    while i < len
        invariant
            start <= i <= len,
            start < len,
            len == s@.len(),
            start == 0 || start == 1,
            start == 1 <==> s@.len() > 0 && (s@[0] == '+' || s@[0] == '-'),
            neg <==> s@.len() > 0 && s@[0] == '-',
            body == s@.subrange(start as int, len as int),
            spec_all_digits(s@.subrange(start as int, i as int)),
            acc as int == spec_digits_val(s@.subrange(start as int, i as int)),
            acc <= 0x8000_0000,
        decreases len - i,
    {
        let c = s.get_char(i);
        let d = digit_val(c);
        if d < 0 {
            proof {
                assert(0 <= i - start < body.len());
                assert(body[i - start] == c);
                assert(!spec_is_digit(c));
                assert(!spec_all_digits(body));
                assert(spec_parse_i32(s@) == Err::<i32, TaskError>(TaskError::MalformedInteger));
            }
            return Err(TaskError::MalformedInteger);
        }
        proof {
            let p = s@.subrange(start as int, i as int + 1);
            assert(p.drop_last() =~= s@.subrange(start as int, i as int));
            assert(p.last() == c);
        }
        acc = acc * 10 + (d as u64);
        i += 1;
        if acc > 0x8000_0000 {
            proof {
                if start == 0 {
                    assert(s@.subrange(0, len as int) =~= s@);
                }
                assert(acc as int == spec_digits_val(s@.subrange(start as int, i as int)));
                if spec_all_digits(body) {
                    lemma_digits_val_prefix(body, i - start);
                    assert(body.take(i - start) =~= s@.subrange(start as int, i as int));
                    lemma_digits_val_nonneg(body);
                    assert(spec_digits_val(body) >= acc as int);
                }
                assert(spec_parse_i32(s@) == Err::<i32, TaskError>(TaskError::MalformedInteger));
            }
            return Err(TaskError::MalformedInteger);
        }
    }
    proof {
        assert(s@.subrange(start as int, len as int) =~= body);
    }
    if neg {
        let v: i32 = (-(acc as i64)) as i32;
        Ok(v)
    } else {
        if acc > (i32::MAX as u64) {
            return Err(TaskError::MalformedInteger);
        }
        Ok(acc as i32)
    }
}

/// What a status token denotes: exactly `todo`, `progress`, `done` or
/// `all`; anything else is `InvalidStatus`.
pub open spec fn spec_status_from_str(s: Seq<char>) -> Result<CommandStatus, TaskError> {
    if s == "todo"@ {
        Ok(CommandStatus::Todo)
    } else if s == "progress"@ {
        Ok(CommandStatus::Progress)
    } else if s == "done"@ {
        Ok(CommandStatus::Done)
    } else if s == "all"@ {
        Ok(CommandStatus::All)
    } else {
        Err(TaskError::InvalidStatus)
    }
}

impl CommandStatus {
    /// Reads a status token, case-sensitively.
    pub fn from_str(input: &str) -> (r: Result<CommandStatus, TaskError>)
        ensures
            r == spec_status_from_str(input@),
    {
        if text_eq(input, "todo") {
            Ok(CommandStatus::Todo)
        } else if text_eq(input, "progress") {
            Ok(CommandStatus::Progress)
        } else if text_eq(input, "done") {
            Ok(CommandStatus::Done)
        } else if text_eq(input, "all") {
            Ok(CommandStatus::All)
        } else {
            Err(TaskError::InvalidStatus)
        }
    }
}

/// What parsing a status token with an `all`-permission flag yields:
/// `all` is `StatusNotAllowed` where the flag forbids it.
pub open spec fn spec_parse_status(s: Seq<char>, allow_all: bool) -> Result<
    CommandStatus,
    TaskError,
> {
    match spec_status_from_str(s) {
        Ok(CommandStatus::All) => if allow_all {
            Ok(CommandStatus::All)
        } else {
            Err(TaskError::StatusNotAllowed)
        },
        Ok(st) => Ok(st),
        Err(e) => Err(e),
    }
}

/// Reads a status token; `allow_all` says whether the aggregate `all` is
/// acceptable in this position.
pub fn parse_status(status: &str, allow_all: bool) -> (r: Result<CommandStatus, TaskError>)
    ensures
        r == spec_parse_status(status@, allow_all),
{
    match CommandStatus::from_str(status) {
        Ok(CommandStatus::All) => if allow_all {
            Ok(CommandStatus::All)
        } else {
            Err(TaskError::StatusNotAllowed)
        },
        Ok(st) => Ok(st),
        Err(e) => Err(e),
    }
}

/// What parsing an argument vector yields. `args[0]` is the program name;
/// `args[1]` selects the operation; the rest are its arguments, extra
/// trailing arguments being ignored. The `list` status token defaults to
/// `all` when omitted.
pub open spec fn spec_parse_command(args: Seq<Seq<char>>) -> Result<SpecCommand, TaskError> {
    if args.len() < 2 {
        Err(TaskError::MissingArgument)
    } else if args[1] == "add"@ {
        if args.len() < 3 {
            Err(TaskError::MissingArgument)
        } else {
            Ok(SpecCommand::Add { desc: args[2] })
        }
    } else if args[1] == "edit"@ {
        if args.len() < 3 {
            Err(TaskError::MissingArgument)
        } else {
            match spec_parse_i32(args[2]) {
                Err(e) => Err(e),
                Ok(id) => if args.len() < 4 {
                    Err(TaskError::MissingArgument)
                } else {
                    Ok(SpecCommand::Edit { id, desc: args[3] })
                },
            }
        }
    } else if args[1] == "list"@ {
        let tok = if args.len() >= 3 {
            args[2]
        } else {
            "all"@
        };
        match spec_parse_status(tok, true) {
            Ok(cs) => Ok(SpecCommand::List { status: cs }),
            Err(e) => Err(e),
        }
    } else if args[1] == "delete"@ {
        if args.len() < 3 {
            Err(TaskError::MissingArgument)
        } else {
            match spec_parse_i32(args[2]) {
                Err(e) => Err(e),
                Ok(id) => Ok(SpecCommand::Delete { id }),
            }
        }
    } else if args[1] == "mark"@ {
        if args.len() < 3 {
            Err(TaskError::MissingArgument)
        } else {
            match spec_parse_i32(args[2]) {
                Err(e) => Err(e),
                Ok(id) => if args.len() < 4 {
                    Err(TaskError::MissingArgument)
                } else {
                    match spec_parse_status(args[3], false) {
                        Ok(cs) => Ok(SpecCommand::Mark { id, status: cs }),
                        Err(e) => Err(e),
                    }
                },
            }
        }
    } else {
        Err(TaskError::InvalidCommand)
    }
}

/// Turns a raw argument vector into a typed command, or the error that
/// says exactly why it is not one.
pub fn parse_command(args: &[String]) -> (r: Result<CommandType, TaskError>)
    ensures
        ({
            let sp = spec_parse_command(args.deep_view());
            match r {
                Ok(c) => sp == Ok::<SpecCommand, TaskError>(c@),
                Err(e) => sp == Err::<SpecCommand, TaskError>(e),
            }
        }),
{
    proof {
        assert(args.deep_view().len() == args@.len());
        assert(forall|i: int|
            0 <= i < args@.len() ==> args.deep_view()[i] == (#[trigger] args@[i])@);
    }
    if args.len() < 2 {
        return Err(TaskError::MissingArgument);
    }
    let cmd: &String = &args[1];
    if text_eq(cmd.as_str(), "add") {
        if args.len() < 3 {
            return Err(TaskError::MissingArgument);
        }
        Ok(CommandType::Add { desc: args[2].clone() })
    } else if text_eq(cmd.as_str(), "edit") {
        if args.len() < 3 {
            return Err(TaskError::MissingArgument);
        }
        let id = match parse_id(args[2].as_str()) {
            Ok(v) => v,
            Err(e) => {
                return Err(e);
            },
        };
        if args.len() < 4 {
            return Err(TaskError::MissingArgument);
        }
        Ok(CommandType::Edit { id, desc: args[3].clone() })
    } else if text_eq(cmd.as_str(), "list") {
        let st = if args.len() >= 3 {
            parse_status(args[2].as_str(), true)
        } else {
            parse_status("all", true)
        };
        match st {
            Ok(cs) => Ok(CommandType::List { status: cs }),
            Err(e) => Err(e),
        }
    } else if text_eq(cmd.as_str(), "delete") {
        if args.len() < 3 {
            return Err(TaskError::MissingArgument);
        }
        match parse_id(args[2].as_str()) {
            Ok(id) => Ok(CommandType::Delete { id }),
            Err(e) => Err(e),
        }
    } else if text_eq(cmd.as_str(), "mark") {
        if args.len() < 3 {
            return Err(TaskError::MissingArgument);
        }
        let id = match parse_id(args[2].as_str()) {
            Ok(v) => v,
            Err(e) => {
                return Err(e);
            },
        };
        if args.len() < 4 {
            return Err(TaskError::MissingArgument);
        }
        match parse_status(args[3].as_str(), false) {
            Ok(cs) => Ok(CommandType::Mark { id, status: cs }),
            Err(e) => Err(e),
        }
    } else {
        Err(TaskError::InvalidCommand)
    }
}

} // verus!
