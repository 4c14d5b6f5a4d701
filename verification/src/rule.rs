//! The rules of Luarus, as the compiler and the VM name them.
//!
//! Every error identifies the rule it broke. The message says what went wrong
//! here; the rule says what is true everywhere. A language whose selling point
//! is that nothing is implicit ought to be able to state what it is holding you
//! to, and having to name one keeps the rule set honest and small.
use vstd::prelude::*;

verus! {

/// One rule of the language.
#[derive(Clone, Copy, Debug, PartialEq, Eq, Structural)]
pub enum Rule {
    /// A name is written in parentheses.
    NamesAreParenthesised,
    /// A value is written in quotes.
    ValuesAreQuoted,
    /// A statement chain is closed by `end`.
    EndClosesAChain,
    /// A statement begins with one of the statement keywords.
    StatementForm,
    /// `print` takes its values in brackets.
    PrintTakesBrackets,
    /// An expression is grouped with pipes.
    GroupsArePiped,
    /// A comparison has exactly two sides.
    ComparisonsDoNotChain,
    /// An escape is one of a fixed set, and is always text.
    EscapesAreText,
    /// Every character belongs to a name, a value, an operator or a comment.
    LexicalForm,
    /// A block is delimited by braces.
    BlocksAreBraced,
    /// A condition is a bool; there is no truthiness.
    ConditionsAreBool,
    /// A loop counts over whole numbers.
    LoopsCountWholeNumbers,
    /// A literal takes its type from its context.
    LiteralsNeedAType,
    /// A literal must be a valid value of the type it is read as.
    ValuesMustFit,
    /// A value never changes type on its own.
    NoImplicitConversion,
    /// A type annotation names one of the built-in types.
    TypesMustExist,
    /// Arithmetic and ordering need numeric types.
    ArithmeticIsNumeric,
    /// An unsigned type never holds a negative value.
    UnsignedIsNeverNegative,
    /// A name is declared before it is used.
    NamesMustBeDeclared,
    /// A name is declared once.
    NamesAreDeclaredOnce,
    /// Arithmetic never wraps.
    OverflowTraps,
    /// An integer is never divided by zero.
    NoDivisionByZero,
    /// A variable is assigned before it is read.
    AssignBeforeReading,
    /// A chunk must be well formed.
    BytecodeIsWellFormed,
}

/// The stable identifier of a rule, shown in brackets after `error`.
pub open spec fn slug_text(r: Rule) -> Seq<char> {
    match r {
        Rule::NamesAreParenthesised => "names-are-parenthesised"@,
        Rule::ValuesAreQuoted => "values-are-quoted"@,
        Rule::EndClosesAChain => "end-closes-a-chain"@,
        Rule::StatementForm => "statement-form"@,
        Rule::PrintTakesBrackets => "print-takes-brackets"@,
        Rule::GroupsArePiped => "groups-are-piped"@,
        Rule::ComparisonsDoNotChain => "comparisons-do-not-chain"@,
        Rule::EscapesAreText => "escapes-are-text"@,
        Rule::LexicalForm => "lexical-form"@,
        Rule::BlocksAreBraced => "blocks-are-braced"@,
        Rule::ConditionsAreBool => "conditions-are-bool"@,
        Rule::LoopsCountWholeNumbers => "loops-count-whole-numbers"@,
        Rule::LiteralsNeedAType => "literals-need-a-type"@,
        Rule::ValuesMustFit => "values-must-fit"@,
        Rule::NoImplicitConversion => "no-implicit-conversion"@,
        Rule::TypesMustExist => "types-must-exist"@,
        Rule::ArithmeticIsNumeric => "arithmetic-is-numeric"@,
        Rule::UnsignedIsNeverNegative => "unsigned-is-never-negative"@,
        Rule::NamesMustBeDeclared => "names-must-be-declared"@,
        Rule::NamesAreDeclaredOnce => "names-are-declared-once"@,
        Rule::OverflowTraps => "overflow-traps"@,
        Rule::NoDivisionByZero => "no-division-by-zero"@,
        Rule::AssignBeforeReading => "assign-before-reading"@,
        Rule::BytecodeIsWellFormed => "bytecode-is-well-formed"@,
    }
}

/// The rule itself, in the words every message uses.
pub open spec fn statement_text(r: Rule) -> Seq<char> {
    match r {
        Rule::NamesAreParenthesised => "a name is written in parentheses, as `(name)`"@,
        Rule::ValuesAreQuoted => "a value is written in quotes, as `'1000'`"@,
        Rule::EndClosesAChain => "`end` closes a statement chain, and every chain has one"@,
        Rule::StatementForm => "a statement starts with `var`, `set`, `print`, `global` or `pub`"@,
        Rule::PrintTakesBrackets => "`print` takes its values in brackets, as `print[...]`"@,
        Rule::GroupsArePiped => "an expression is grouped with pipes, as `| ... |`"@,
        Rule::ComparisonsDoNotChain => "a comparison has exactly two sides"@,
        Rule::EscapesAreText => "an escape is one of `\\n` `\\t` `\\r` `\\0` `\\\\`, and is always `str`"@,
        Rule::LexicalForm => "every character belongs to a name, a value, an operator or a comment"@,
        Rule::BlocksAreBraced => "a block is written `{ ... }`, and `else` divides one in two"@,
        Rule::ConditionsAreBool => "a condition is a `bool`; no other type is true or false in Luarus"@,
        Rule::LoopsCountWholeNumbers => "a loop counts whole numbers: an integer type, or an `er` with no fraction"@,
        Rule::LiteralsNeedAType => "a literal has no type of its own and takes one from its context, or says it \
                 outright as in `f16 '5'`"@,
        Rule::ValuesMustFit => "a literal must be a valid value of the type it is read as"@,
        Rule::NoImplicitConversion => "a value never changes type on its own"@,
        Rule::TypesMustExist => "a type is one of i8 i16 i32 i64, u8 u16 u32 u64, f16 f32 f64, bool, str, nil"@,
        Rule::ArithmeticIsNumeric => "arithmetic and ordering need numeric types"@,
        Rule::UnsignedIsNeverNegative => "an unsigned type never holds a negative value"@,
        Rule::NamesMustBeDeclared => "a name is declared before it is used"@,
        Rule::NamesAreDeclaredOnce => "a name is declared once"@,
        Rule::OverflowTraps => "arithmetic never wraps; a result must fit its type"@,
        Rule::NoDivisionByZero => "an integer is never divided by zero"@,
        Rule::AssignBeforeReading => "a variable is assigned before it is read"@,
        Rule::BytecodeIsWellFormed => "a chunk must be well formed to run"@,
    }
}

/// Every rule, in the order the documentation lists them.
pub open spec fn all_rules() -> Seq<Rule> {
    seq![
        Rule::NamesAreParenthesised,
        Rule::ValuesAreQuoted,
        Rule::EndClosesAChain,
        Rule::StatementForm,
        Rule::PrintTakesBrackets,
        Rule::GroupsArePiped,
        Rule::ComparisonsDoNotChain,
        Rule::EscapesAreText,
        Rule::LexicalForm,
        Rule::BlocksAreBraced,
        Rule::ConditionsAreBool,
        Rule::LoopsCountWholeNumbers,
        Rule::LiteralsNeedAType,
        Rule::ValuesMustFit,
        Rule::NoImplicitConversion,
        Rule::TypesMustExist,
        Rule::ArithmeticIsNumeric,
        Rule::UnsignedIsNeverNegative,
        Rule::NamesMustBeDeclared,
        Rule::NamesAreDeclaredOnce,
        Rule::OverflowTraps,
        Rule::NoDivisionByZero,
        Rule::AssignBeforeReading,
        Rule::BytecodeIsWellFormed,
    ]
}

impl Rule {
    /// The stable identifier shown in brackets after `error`.
    pub fn slug(self) -> (r: &'static str)
        ensures
            r@ == slug_text(self),
    {
        match self {
            Rule::NamesAreParenthesised => "names-are-parenthesised",
            Rule::ValuesAreQuoted => "values-are-quoted",
            Rule::EndClosesAChain => "end-closes-a-chain",
            Rule::StatementForm => "statement-form",
            Rule::PrintTakesBrackets => "print-takes-brackets",
            Rule::GroupsArePiped => "groups-are-piped",
            Rule::ComparisonsDoNotChain => "comparisons-do-not-chain",
            Rule::EscapesAreText => "escapes-are-text",
            Rule::LexicalForm => "lexical-form",
            Rule::BlocksAreBraced => "blocks-are-braced",
            Rule::ConditionsAreBool => "conditions-are-bool",
            Rule::LoopsCountWholeNumbers => "loops-count-whole-numbers",
            Rule::LiteralsNeedAType => "literals-need-a-type",
            Rule::ValuesMustFit => "values-must-fit",
            Rule::NoImplicitConversion => "no-implicit-conversion",
            Rule::TypesMustExist => "types-must-exist",
            Rule::ArithmeticIsNumeric => "arithmetic-is-numeric",
            Rule::UnsignedIsNeverNegative => "unsigned-is-never-negative",
            Rule::NamesMustBeDeclared => "names-must-be-declared",
            Rule::NamesAreDeclaredOnce => "names-are-declared-once",
            Rule::OverflowTraps => "overflow-traps",
            Rule::NoDivisionByZero => "no-division-by-zero",
            Rule::AssignBeforeReading => "assign-before-reading",
            Rule::BytecodeIsWellFormed => "bytecode-is-well-formed",
        }
    }

    /// The rule itself, stated once, in the same words everywhere.
    pub fn statement(self) -> (r: &'static str)
        ensures
            r@ == statement_text(self),
    {
        match self {
            Rule::NamesAreParenthesised => "a name is written in parentheses, as `(name)`",
            Rule::ValuesAreQuoted => "a value is written in quotes, as `'1000'`",
            Rule::EndClosesAChain => "`end` closes a statement chain, and every chain has one",
            Rule::StatementForm => "a statement starts with `var`, `set`, `print`, `global` or `pub`",
            Rule::PrintTakesBrackets => "`print` takes its values in brackets, as `print[...]`",
            Rule::GroupsArePiped => "an expression is grouped with pipes, as `| ... |`",
            Rule::ComparisonsDoNotChain => "a comparison has exactly two sides",
            Rule::EscapesAreText => "an escape is one of `\\n` `\\t` `\\r` `\\0` `\\\\`, and is always `str`",
            Rule::LexicalForm => "every character belongs to a name, a value, an operator or a comment",
            Rule::BlocksAreBraced => "a block is written `{ ... }`, and `else` divides one in two",
            Rule::ConditionsAreBool => "a condition is a `bool`; no other type is true or false in Luarus",
            Rule::LoopsCountWholeNumbers => "a loop counts whole numbers: an integer type, or an `er` with no fraction",
            Rule::LiteralsNeedAType => "a literal has no type of its own and takes one from its context, or says it \
                 outright as in `f16 '5'`",
            Rule::ValuesMustFit => "a literal must be a valid value of the type it is read as",
            Rule::NoImplicitConversion => "a value never changes type on its own",
            Rule::TypesMustExist => "a type is one of i8 i16 i32 i64, u8 u16 u32 u64, f16 f32 f64, bool, str, nil",
            Rule::ArithmeticIsNumeric => "arithmetic and ordering need numeric types",
            Rule::UnsignedIsNeverNegative => "an unsigned type never holds a negative value",
            Rule::NamesMustBeDeclared => "a name is declared before it is used",
            Rule::NamesAreDeclaredOnce => "a name is declared once",
            Rule::OverflowTraps => "arithmetic never wraps; a result must fit its type",
            Rule::NoDivisionByZero => "an integer is never divided by zero",
            Rule::AssignBeforeReading => "a variable is assigned before it is read",
            Rule::BytecodeIsWellFormed => "a chunk must be well formed to run",
        }
    }

    /// Every rule, for documentation and for listing.
    pub fn all() -> (r: Vec<Rule>)
        ensures
            r@ == all_rules(),
    {
        let r = vec![
            Rule::NamesAreParenthesised,
            Rule::ValuesAreQuoted,
            Rule::EndClosesAChain,
            Rule::StatementForm,
            Rule::PrintTakesBrackets,
            Rule::GroupsArePiped,
            Rule::ComparisonsDoNotChain,
            Rule::EscapesAreText,
            Rule::LexicalForm,
            Rule::BlocksAreBraced,
            Rule::ConditionsAreBool,
            Rule::LoopsCountWholeNumbers,
            Rule::LiteralsNeedAType,
            Rule::ValuesMustFit,
            Rule::NoImplicitConversion,
            Rule::TypesMustExist,
            Rule::ArithmeticIsNumeric,
            Rule::UnsignedIsNeverNegative,
            Rule::NamesMustBeDeclared,
            Rule::NamesAreDeclaredOnce,
            Rule::OverflowTraps,
            Rule::NoDivisionByZero,
            Rule::AssignBeforeReading,
            Rule::BytecodeIsWellFormed,
        ];
        proof {
            assert(r@ =~= all_rules());
        }
        r
    }
}

/// Every rule appears in the list.
pub proof fn lemma_all_rules_complete(r: Rule)
    ensures
        all_rules().contains(r),
{
    match r {
        Rule::NamesAreParenthesised => assert(all_rules()[0] == r),
        Rule::ValuesAreQuoted => assert(all_rules()[1] == r),
        Rule::EndClosesAChain => assert(all_rules()[2] == r),
        Rule::StatementForm => assert(all_rules()[3] == r),
        Rule::PrintTakesBrackets => assert(all_rules()[4] == r),
        Rule::GroupsArePiped => assert(all_rules()[5] == r),
        Rule::ComparisonsDoNotChain => assert(all_rules()[6] == r),
        Rule::EscapesAreText => assert(all_rules()[7] == r),
        Rule::LexicalForm => assert(all_rules()[8] == r),
        Rule::BlocksAreBraced => assert(all_rules()[9] == r),
        Rule::ConditionsAreBool => assert(all_rules()[10] == r),
        Rule::LoopsCountWholeNumbers => assert(all_rules()[11] == r),
        Rule::LiteralsNeedAType => assert(all_rules()[12] == r),
        Rule::ValuesMustFit => assert(all_rules()[13] == r),
        Rule::NoImplicitConversion => assert(all_rules()[14] == r),
        Rule::TypesMustExist => assert(all_rules()[15] == r),
        Rule::ArithmeticIsNumeric => assert(all_rules()[16] == r),
        Rule::UnsignedIsNeverNegative => assert(all_rules()[17] == r),
        Rule::NamesMustBeDeclared => assert(all_rules()[18] == r),
        Rule::NamesAreDeclaredOnce => assert(all_rules()[19] == r),
        Rule::OverflowTraps => assert(all_rules()[20] == r),
        Rule::NoDivisionByZero => assert(all_rules()[21] == r),
        Rule::AssignBeforeReading => assert(all_rules()[22] == r),
        Rule::BytecodeIsWellFormed => assert(all_rules()[23] == r),
    }
}

/// Enough of a slug to tell it from every other: its length and two of
/// its letters.
spec fn slug_key(r: Rule) -> (nat, char, char) {
    match r {
        Rule::NamesAreParenthesised => (23, 'n', 'p'),
        Rule::ValuesAreQuoted => (17, 'v', '-'),
        Rule::EndClosesAChain => (18, 'e', '-'),
        Rule::StatementForm => (14, 's', 'f'),
        Rule::PrintTakesBrackets => (20, 'p', 's'),
        Rule::GroupsArePiped => (16, 'g', '-'),
        Rule::ComparisonsDoNotChain => (24, 'c', 's'),
        Rule::EscapesAreText => (16, 'e', 'e'),
        Rule::LexicalForm => (12, 'l', 'r'),
        Rule::BlocksAreBraced => (17, 'b', '-'),
        Rule::ConditionsAreBool => (19, 'c', '-'),
        Rule::LoopsCountWholeNumbers => (25, 'l', 't'),
        Rule::LiteralsNeedAType => (20, 'l', 'e'),
        Rule::ValuesMustFit => (15, 'v', 't'),
        Rule::NoImplicitConversion => (22, 'n', 't'),
        Rule::TypesMustExist => (16, 't', '-'),
        Rule::ArithmeticIsNumeric => (21, 'a', '-'),
        Rule::UnsignedIsNeverNegative => (26, 'u', 's'),
        Rule::NamesMustBeDeclared => (22, 'n', '-'),
        Rule::NamesAreDeclaredOnce => (23, 'n', 'd'),
        Rule::OverflowTraps => (14, 'o', 'r'),
        Rule::NoDivisionByZero => (19, 'n', 'n'),
        Rule::AssignBeforeReading => (21, 'a', 'o'),
        Rule::BytecodeIsWellFormed => (23, 'b', 's'),
    }
}

proof fn lemma_slug_key(r: Rule)
    ensures
        slug_text(r).len() == slug_key(r).0,
        slug_text(r)[0] == slug_key(r).1,
        slug_text(r)[10] == slug_key(r).2,
{
    match r {
        Rule::NamesAreParenthesised => reveal_strlit("names-are-parenthesised"),
        Rule::ValuesAreQuoted => reveal_strlit("values-are-quoted"),
        Rule::EndClosesAChain => reveal_strlit("end-closes-a-chain"),
        Rule::StatementForm => reveal_strlit("statement-form"),
        Rule::PrintTakesBrackets => reveal_strlit("print-takes-brackets"),
        Rule::GroupsArePiped => reveal_strlit("groups-are-piped"),
        Rule::ComparisonsDoNotChain => reveal_strlit("comparisons-do-not-chain"),
        Rule::EscapesAreText => reveal_strlit("escapes-are-text"),
        Rule::LexicalForm => reveal_strlit("lexical-form"),
        Rule::BlocksAreBraced => reveal_strlit("blocks-are-braced"),
        Rule::ConditionsAreBool => reveal_strlit("conditions-are-bool"),
        Rule::LoopsCountWholeNumbers => reveal_strlit("loops-count-whole-numbers"),
        Rule::LiteralsNeedAType => reveal_strlit("literals-need-a-type"),
        Rule::ValuesMustFit => reveal_strlit("values-must-fit"),
        Rule::NoImplicitConversion => reveal_strlit("no-implicit-conversion"),
        Rule::TypesMustExist => reveal_strlit("types-must-exist"),
        Rule::ArithmeticIsNumeric => reveal_strlit("arithmetic-is-numeric"),
        Rule::UnsignedIsNeverNegative => reveal_strlit("unsigned-is-never-negative"),
        Rule::NamesMustBeDeclared => reveal_strlit("names-must-be-declared"),
        Rule::NamesAreDeclaredOnce => reveal_strlit("names-are-declared-once"),
        Rule::OverflowTraps => reveal_strlit("overflow-traps"),
        Rule::NoDivisionByZero => reveal_strlit("no-division-by-zero"),
        Rule::AssignBeforeReading => reveal_strlit("assign-before-reading"),
        Rule::BytecodeIsWellFormed => reveal_strlit("bytecode-is-well-formed"),
    }
}

/// No two rules share a slug.
pub proof fn lemma_slugs_unique(a: Rule, b: Rule)
    requires
        slug_text(a) == slug_text(b),
    ensures
        a == b,
{
    lemma_slug_key(a);
    lemma_slug_key(b);
}

} // verus!
