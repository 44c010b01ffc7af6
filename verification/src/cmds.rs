//! Source code parsing: filtering, bracket validation, jump resolution.

use vstd::prelude::*;

verus! {

/// Enumeration of all valid commands.
#[derive(Clone, Copy, Debug, PartialEq, Eq, Structural)]
pub enum Commands {
    /// Increment the byte at the data pointer by one.
    ///
    /// * maps to `+`
    Increment,
    /// Decrement the byte at the data pointer by one.
    ///
    /// * maps to `-`
    Decrement,
    /// Move the data pointer to the right by one.
    ///
    /// * maps to `>`
    MoveRight,
    /// Move the data pointer to the left by one.
    ///
    /// * maps to `<`
    MoveLeft,
    /// Print the byte at the location of the data pointer.
    ///
    /// * maps to `.`
    Print,
    /// Read one byte and store it at the location of the data pointer.
    ///
    /// * maps to `,`
    Read,
    /// Opening bracket, jump to the closing bracket if the byte at the data
    /// pointer is zero.  The payload is the index of the closing bracket.
    ///
    /// * maps to `[`
    LeftBracket(usize),
    /// Closing bracket, jump to the opening bracket if the byte at the data
    /// pointer is non-zero.  The payload is the index of the opening bracket.
    ///
    /// * maps to `]`
    RightBracket(usize),
}

/// The single way parsing can fail.
#[derive(Clone, Copy, Debug, PartialEq, Eq, Structural)]
pub enum ParseError {
    /// The bracket characters of the source do not form a balanced,
    /// properly nested sequence.
    UnbalancedBrackets,
}

/// The eight characters that make up the language's alphabet.
pub open spec fn is_instruction_char(c: char) -> bool {
    c == '>' || c == '<' || c == '+' || c == '-' || c == '.' || c == ',' || c == '[' || c == ']'
}

/// The characters of `s` that belong to the alphabet, in their original order.
pub open spec fn instruction_chars(s: Seq<char>) -> Seq<char> {
    s.filter(|c: char| is_instruction_char(c))
}

/// Appending one character extends the retained characters by that character
/// exactly when it belongs to the alphabet.
proof fn lemma_instruction_chars_push(s: Seq<char>, c: char)
    ensures
        instruction_chars(s.push(c)) == if is_instruction_char(c) {
            instruction_chars(s).push(c)
        } else {
            instruction_chars(s)
        },
{
    reveal(Seq::filter);
    assert(s.push(c).drop_last() =~= s);
}

/// The unresolved command for one alphabet character: brackets carry the
/// placeholder target 0 until jump resolution fills them in.
pub open spec fn command_of(c: char) -> Commands {
    if c == '>' {
        Commands::MoveRight
    } else if c == '<' {
        Commands::MoveLeft
    } else if c == '+' {
        Commands::Increment
    } else if c == '-' {
        Commands::Decrement
    } else if c == '.' {
        Commands::Print
    } else if c == ',' {
        Commands::Read
    } else if c == '[' {
        Commands::LeftBracket(0)
    } else {
        Commands::RightBracket(0)
    }
}

/// The provisional command sequence of a source text: one command per
/// alphabet character in original order, every other character skipped,
/// all bracket targets still the placeholder.
pub open spec fn provisional_commands(s: Seq<char>) -> Seq<Commands>
    decreases s.len(),
{
    if s.len() == 0 {
        Seq::empty()
    } else if is_instruction_char(s.last()) {
        provisional_commands(s.drop_last()).push(command_of(s.last()))
    } else {
        provisional_commands(s.drop_last())
    }
}

/// Number of opening brackets among the characters of `s`.
pub open spec fn opens(s: Seq<char>) -> int
    decreases s.len(),
{
    if s.len() == 0 {
        0
    } else {
        opens(s.drop_last()) + (if s.last() == '[' {
            1int
        } else {
            0int
        })
    }
}

/// Number of closing brackets among the characters of `s`.
pub open spec fn closes(s: Seq<char>) -> int
    decreases s.len(),
{
    if s.len() == 0 {
        0
    } else {
        closes(s.drop_last()) + (if s.last() == ']' {
            1int
        } else {
            0int
        })
    }
}

/// No prefix of `s` closes more brackets than it has opened.
pub open spec fn no_prefix_overclosed(s: Seq<char>) -> bool {
    forall|i: int| 0 <= i <= s.len() ==> closes(#[trigger] s.take(i)) <= opens(s.take(i))
}

/// The bracket characters of `s` form a balanced, properly nested sequence:
/// no prefix closes more brackets than it has opened, and at the end every
/// opened bracket has been closed.
pub open spec fn balanced(s: Seq<char>) -> bool {
    &&& opens(s) == closes(s)
    &&& no_prefix_overclosed(s)
}

/// One left-to-right pass of jump resolution, about to look at position `i`,
/// with the positions of the pending opening brackets on `stack`: a
/// placeholder opening bracket is pushed; a placeholder closing bracket pops
/// the most recent pending opener `o`, the opener's target becomes the
/// closer's index and the closer's target becomes `o`.
pub open spec fn resolve_from(cmds: Seq<Commands>, i: int, stack: Seq<usize>) -> Seq<Commands>
    decreases cmds.len() - i,
{
    if i < 0 || i >= cmds.len() {
        cmds
    } else if cmds[i] == Commands::LeftBracket(0) {
        resolve_from(cmds, i + 1, stack.push(i as usize))
    } else if cmds[i] == Commands::RightBracket(0) && stack.len() > 0 && stack.last()
        < cmds.len() {
        let o = stack.last();
        resolve_from(
            cmds.update(o as int, Commands::LeftBracket(i as usize)).update(
                i,
                Commands::RightBracket(o),
            ),
            i + 1,
            stack.drop_last(),
        )
    } else {
        resolve_from(cmds, i + 1, stack)
    }
}

/// The fully resolved program of a source text.
pub open spec fn resolved_commands(s: Seq<char>) -> Seq<Commands> {
    resolve_from(provisional_commands(s), 0, Seq::empty())
}

/// What parsing returns for given instruction characters: the resolved
/// program when the brackets are balanced, the unbalanced-brackets error
/// otherwise.
pub open spec fn parse_result(s: Seq<char>) -> Result<Seq<Commands>, ParseError> {
    if balanced(s) {
        Ok(resolved_commands(s))
    } else {
        Err(ParseError::UnbalancedBrackets)
    }
}

/// Filtering commutes with counting and mapping: the retained instruction
/// characters have the same bracket counts and the same provisional
/// commands as the full source text.
proof fn lemma_filter_counts(s: Seq<char>)
    ensures
        opens(instruction_chars(s)) == opens(s),
        closes(instruction_chars(s)) == closes(s),
        provisional_commands(instruction_chars(s)) == provisional_commands(s),
    decreases s.len(),
{
    if s.len() > 0 {
        let s0 = s.drop_last();
        let c = s.last();
        assert(s0.push(c) =~= s);
        lemma_filter_counts(s0);
        lemma_instruction_chars_push(s0, c);
        lemma_scan_push(s0, c);
        if is_instruction_char(c) {
            lemma_scan_push(instruction_chars(s0), c);
        }
    }
}

/// Filtering preserves the prefix condition, left to right.
proof fn lemma_filter_prefix_fwd(s: Seq<char>)
    requires
        no_prefix_overclosed(s),
    ensures
        no_prefix_overclosed(instruction_chars(s)),
    decreases s.len(),
{
    if s.len() > 0 {
        let s0 = s.drop_last();
        let c = s.last();
        assert(s0.push(c) =~= s);
        assert forall|i: int| 0 <= i <= s0.len() implies closes(#[trigger] s0.take(i)) <= opens(
            s0.take(i),
        ) by {
            assert(s0.take(i) =~= s.take(i));
        }
        lemma_filter_prefix_fwd(s0);
        lemma_instruction_chars_push(s0, c);
        let f = instruction_chars(s);
        let f0 = instruction_chars(s0);
        assert forall|j: int| 0 <= j <= f.len() implies closes(#[trigger] f.take(j)) <= opens(
            f.take(j),
        ) by {
            if is_instruction_char(c) && j == f0.len() + 1 {
                assert(f.take(j) =~= f);
                lemma_filter_counts(s);
                assert(s.take(s.len() as int) =~= s);
                assert(closes(s) <= opens(s));
            } else {
                assert(f.take(j) =~= f0.take(j));
            }
        }
    }
}

/// Filtering preserves the prefix condition, right to left.
proof fn lemma_filter_prefix_bwd(s: Seq<char>)
    requires
        no_prefix_overclosed(instruction_chars(s)),
    ensures
        no_prefix_overclosed(s),
    decreases s.len(),
{
    if s.len() > 0 {
        let s0 = s.drop_last();
        let c = s.last();
        assert(s0.push(c) =~= s);
        lemma_instruction_chars_push(s0, c);
        let f = instruction_chars(s);
        let f0 = instruction_chars(s0);
        assert forall|j: int| 0 <= j <= f0.len() implies closes(#[trigger] f0.take(j)) <= opens(
            f0.take(j),
        ) by {
            assert(f0.take(j) =~= f.take(j));
        }
        lemma_filter_prefix_bwd(s0);
        assert forall|i: int| 0 <= i <= s.len() implies closes(#[trigger] s.take(i)) <= opens(
            s.take(i),
        ) by {
            if i <= s0.len() {
                assert(s.take(i) =~= s0.take(i));
            } else {
                assert(s.take(i) =~= s);
                lemma_filter_counts(s);
                assert(f.take(f.len() as int) =~= f);
                assert(closes(f) <= opens(f));
            }
        }
    }
}

/// Characters outside the alphabet have no effect on parsing: a source text
/// and its retained instruction characters parse to the same result.
pub proof fn lemma_discarded_chars_no_effect(s: Seq<char>)
    ensures
        parse_result(instruction_chars(s)) == parse_result(s),
{
    lemma_filter_counts(s);
    if balanced(s) {
        lemma_filter_prefix_fwd(s);
        assert(balanced(instruction_chars(s)));
    } else {
        if balanced(instruction_chars(s)) {
            lemma_filter_prefix_bwd(s);
            assert(balanced(s));
        }
    }
}

/// Parsing is a function of the characters alone: parsing the same source
/// twice yields structurally identical results.
pub proof fn lemma_parse_idempotent(
    s: Seq<char>,
    r1: Result<Seq<Commands>, ParseError>,
    r2: Result<Seq<Commands>, ParseError>,
)
    requires
        r1 == parse_result(s),
        r2 == parse_result(s),
    ensures
        r1 == r2,
{
}

/// Every bracket command still carries the placeholder target.
pub open spec fn placeholders_zero(prog: Seq<Commands>) -> bool {
    forall|k: int|
        0 <= k < prog.len() ==> match #[trigger] prog[k] {
            Commands::LeftBracket(t) => t == 0,
            Commands::RightBracket(t) => t == 0,
            _ => true,
        }
}

/// Every jump target stored in a bracket command lies inside the program.
pub open spec fn targets_in_bounds(prog: Seq<Commands>) -> bool {
    forall|k: int|
        0 <= k < prog.len() ==> match #[trigger] prog[k] {
            Commands::LeftBracket(t) => t < prog.len(),
            Commands::RightBracket(t) => t < prog.len(),
            _ => true,
        }
}

/// Every jump target is either the placeholder or lies inside the program.
spec fn targets_loose(prog: Seq<Commands>) -> bool {
    forall|k: int|
        0 <= k < prog.len() ==> match #[trigger] prog[k] {
            Commands::LeftBracket(t) => t == 0 || t < prog.len(),
            Commands::RightBracket(t) => t == 0 || t < prog.len(),
            _ => true,
        }
}

/// The provisional commands of any source text all carry the placeholder.
pub proof fn lemma_provisional_placeholders(s: Seq<char>)
    ensures
        placeholders_zero(provisional_commands(s)),
    decreases s.len(),
{
    if s.len() > 0 {
        lemma_provisional_placeholders(s.drop_last());
    }
}

/// Jump resolution only writes targets that lie inside the program.
proof fn lemma_resolve_targets_loose(cmds: Seq<Commands>, i: int, stack: Seq<usize>)
    requires
        targets_loose(cmds),
        forall|t: int| 0 <= t < stack.len() ==> stack[t] < cmds.len(),
    ensures
        resolve_from(cmds, i, stack).len() == cmds.len(),
        targets_loose(resolve_from(cmds, i, stack)),
    decreases cmds.len() - i,
{
    if i < 0 || i >= cmds.len() {
    } else if cmds[i] == Commands::LeftBracket(0) {
        lemma_resolve_targets_loose(cmds, i + 1, stack.push(i as usize));
    } else if cmds[i] == Commands::RightBracket(0) && stack.len() > 0 && stack.last()
        < cmds.len() {
        let o = stack.last();
        let updated = cmds.update(o as int, Commands::LeftBracket(i as usize)).update(
            i,
            Commands::RightBracket(o),
        );
        assert(targets_loose(updated));
        lemma_resolve_targets_loose(updated, i + 1, stack.drop_last());
    } else {
        lemma_resolve_targets_loose(cmds, i + 1, stack);
    }
}

/// A balanced source text resolves to a program whose jump targets all lie
/// inside it.
pub proof fn lemma_resolved_targets_in_bounds(s: Seq<char>)
    ensures
        resolved_commands(s).len() == provisional_commands(s).len(),
        targets_in_bounds(resolved_commands(s)),
{
    lemma_provisional_placeholders(s);
    lemma_resolve_targets_loose(provisional_commands(s), 0, Seq::empty());
}

/// How one appended character changes the provisional commands and the
/// bracket counts.
proof fn lemma_scan_push(s: Seq<char>, c: char)
    ensures
        provisional_commands(s.push(c)) == if is_instruction_char(c) {
            provisional_commands(s).push(command_of(c))
        } else {
            provisional_commands(s)
        },
        opens(s.push(c)) == opens(s) + (if c == '[' {
            1int
        } else {
            0int
        }),
        closes(s.push(c)) == closes(s) + (if c == ']' {
            1int
        } else {
            0int
        }),
{
    assert(s.push(c).drop_last() =~= s);
    assert(s.push(c).last() == c);
}

/// The bracket counts of `s` lie between 0 and its length.
proof fn lemma_count_bounds(s: Seq<char>)
    ensures
        0 <= opens(s) <= s.len(),
        0 <= closes(s) <= s.len(),
    decreases s.len(),
{
    if s.len() > 0 {
        lemma_count_bounds(s.drop_last());
    }
}

/// Return the valid instruction characters of a source text; every other
/// character is discarded silently.
pub fn get_instruction_chars(src: &str) -> (r: Vec<char>)
    ensures
        r@ == instruction_chars(src@),
{
    let n = src.unicode_len();
    let mut r: Vec<char> = Vec::new();
    let mut i: usize = 0;
    while i < n
        invariant
            i <= n,
            n == src@.len(),
            r@ == instruction_chars(src@.take(i as int)),
        decreases n - i,
    {
        let c = src.get_char(i);
        if c == '>' || c == '<' || c == '+' || c == '-' || c == '.' || c == ',' || c == '['
            || c == ']' {
            r.push(c);
        }
        proof {
            assert(src@.take(i + 1) =~= src@.take(i as int).push(src@[i as int]));
            lemma_instruction_chars_push(src@.take(i as int), src@[i as int]);
        }
        i = i + 1;
    }
    proof {
        assert(src@.take(n as int) =~= src@);
    }
    r
}

/// Return commands mapped from the given instruction characters.
///
/// Fails with the unbalanced-brackets error exactly when the bracket
/// characters of the input are not balanced; on success the result is the
/// fully jump-resolved program.
pub fn get_instructions(insts: &[char]) -> (r: Result<Vec<Commands>, ParseError>)
    ensures
        match r {
            Ok(prog) => balanced(insts@) && prog@ == resolved_commands(insts@)
                && targets_in_bounds(prog@),
            Err(e) => !balanced(insts@) && e == ParseError::UnbalancedBrackets,
        },
        match r {
            Ok(prog) => parse_result(insts@) == Ok::<Seq<Commands>, ParseError>(prog@),
            Err(e) => parse_result(insts@) == Err::<Seq<Commands>, ParseError>(e),
        },
{
    let ghost s = insts@;
    let mut cmds: Vec<Commands> = Vec::new();
    let mut open_brackets: usize = 0;
    let mut idx: usize = 0;
    while idx < insts.len()
        invariant
            idx <= insts.len(),
            s == insts@,
            cmds@ == provisional_commands(s.take(idx as int)),
            open_brackets as int == opens(s.take(idx as int)) - closes(s.take(idx as int)),
            forall|k: int| 0 <= k <= idx ==> closes(#[trigger] s.take(k)) <= opens(s.take(k)),
        decreases insts.len() - idx,
    {
        let c = insts[idx];
        proof {
            assert(s.take(idx + 1) =~= s.take(idx as int).push(s[idx as int]));
            lemma_scan_push(s.take(idx as int), s[idx as int]);
            lemma_count_bounds(s.take(idx as int));
        }
        match c {
            '>' => cmds.push(Commands::MoveRight),
            '<' => cmds.push(Commands::MoveLeft),
            '+' => cmds.push(Commands::Increment),
            '-' => cmds.push(Commands::Decrement),
            '.' => cmds.push(Commands::Print),
            ',' => cmds.push(Commands::Read),
            '[' => {
                cmds.push(Commands::LeftBracket(0));
                open_brackets = open_brackets + 1;
            },
            ']' => {
                cmds.push(Commands::RightBracket(0));
                if open_brackets == 0 {
                    proof {
                        assert(closes(s.take(idx + 1)) > opens(s.take(idx + 1)));
                        assert(!balanced(s));
                    }
                    return Err(ParseError::UnbalancedBrackets);
                }
                open_brackets = open_brackets - 1;
            },
            _ => (),
        }
        idx = idx + 1;
    }
    proof {
        assert(s.take(insts@.len() as int) =~= s);
    }
    if open_brackets != 0 {
        return Err(ParseError::UnbalancedBrackets);
    }
    proof {
        lemma_resolved_targets_in_bounds(s);
    }
    Ok(set_jumps(cmds))
}

/// Set instruction pointer jumps for opening and closing brackets.
pub fn set_jumps(cmds: Vec<Commands>) -> (r: Vec<Commands>)
    ensures
        r@ == resolve_from(cmds@, 0, Seq::empty()),
{
    let ghost cmds0 = cmds@;
    let mut cmds = cmds;
    let mut stack: Vec<usize> = Vec::new();
    let mut i: usize = 0;
    while i < cmds.len()
        invariant
            i <= cmds.len(),
            cmds.len() == cmds0.len(),
            forall|t: int| 0 <= t < stack@.len() ==> stack@[t] < cmds.len(),
            resolve_from(cmds0, 0, Seq::empty()) == resolve_from(cmds@, i as int, stack@),
        decreases cmds.len() - i,
    {
        let ghost pre = cmds@;
        let ghost pre_stack = stack@;
        match cmds[i] {
            Commands::LeftBracket(0usize) => {
                stack.push(i);
                assert(resolve_from(pre, i as int, pre_stack) == resolve_from(
                    cmds@,
                    i + 1,
                    stack@,
                ));
            },
            Commands::RightBracket(0usize) => {
                if let Some(left) = stack.pop() {
                    cmds[left] = Commands::LeftBracket(i);
                    cmds[i] = Commands::RightBracket(left);
                    assert(cmds@ == pre.update(left as int, Commands::LeftBracket(i)).update(
                        i as int,
                        Commands::RightBracket(left),
                    ));
                    assert(stack@ == pre_stack.drop_last());
                    assert(resolve_from(pre, i as int, pre_stack) == resolve_from(
                        cmds@,
                        i + 1,
                        stack@,
                    ));
                }
            },
            _ => {
                assert(resolve_from(pre, i as int, pre_stack) == resolve_from(
                    cmds@,
                    i + 1,
                    stack@,
                ));
            },
        }
        i = i + 1;
    }
    cmds
}

} // verus!
