//! The law that jump resolution pairs brackets by strict LIFO nesting: each
//! closing bracket matches the nearest unmatched preceding opening bracket,
//! and the resolved targets point exactly at these partners.

use crate::cmds::Commands;
use crate::cmds::balanced;
use crate::cmds::closes;
use crate::cmds::is_instruction_char;
use crate::cmds::opens;
use crate::cmds::provisional_commands;
use crate::cmds::resolve_from;
use crate::cmds::resolved_commands;
use vstd::prelude::*;

verus! {

/// Whether `cmd` is an opening bracket, with any target.
pub open spec fn is_open_bracket(cmd: Commands) -> bool {
    cmd is LeftBracket
}

/// Whether `cmd` is a closing bracket, with any target.
pub open spec fn is_close_bracket(cmd: Commands) -> bool {
    cmd is RightBracket
}

/// +1 for an opening bracket, -1 for a closing bracket, 0 otherwise.
pub open spec fn bracket_delta(cmd: Commands) -> int {
    match cmd {
        Commands::LeftBracket(_) => 1,
        Commands::RightBracket(_) => -1,
        _ => 0,
    }
}

/// Nesting depth in front of position `k`: opening minus closing brackets
/// among the first `k` commands.
pub open spec fn depth(prog: Seq<Commands>, k: int) -> int
    decreases k,
{
    if k <= 0 {
        0
    } else {
        depth(prog, k - 1) + bracket_delta(prog[k - 1])
    }
}

/// The brackets of `prog` are balanced: no prefix closes more brackets than
/// it has opened, and at the end every opened bracket has been closed.
spec fn brackets_balanced(prog: Seq<Commands>) -> bool {
    &&& depth(prog, prog.len() as int) == 0
    &&& forall|k: int| 0 <= k <= prog.len() ==> depth(prog, k) >= 0
}

/// Positions `i` and `j` hold a matching bracket pair under strict LIFO
/// nesting: `i` opens, `j` closes, the nesting depth right after `j` returns
/// to what it was in front of `i`, and it stays above that in between.
pub open spec fn lifo_match(prog: Seq<Commands>, i: int, j: int) -> bool {
    &&& 0 <= i < j < prog.len()
    &&& is_open_bracket(prog[i])
    &&& is_close_bracket(prog[j])
    &&& depth(prog, j + 1) == depth(prog, i)
    &&& forall|m: int| i < m <= j ==> depth(prog, m) > depth(prog, i)
}

/// Every bracket's stored target is the position of its LIFO match, and
/// matched brackets point at each other.
pub open spec fn jumps_resolved(prog: Seq<Commands>) -> bool {
    forall|k: int|
        0 <= k < prog.len() ==> match #[trigger] prog[k] {
            Commands::LeftBracket(t) => lifo_match(prog, k, t as int) && prog[t as int]
                == Commands::RightBracket(k as usize),
            Commands::RightBracket(t) => lifo_match(prog, t as int, k) && prog[t as int]
                == Commands::LeftBracket(k as usize),
            _ => true,
        }
}

/// Appending a command does not change the depth in front of earlier
/// positions.
proof fn lemma_depth_push(prog: Seq<Commands>, cmd: Commands, k: int)
    requires
        0 <= k <= prog.len(),
    ensures
        depth(prog.push(cmd), k) == depth(prog, k),
    decreases k,
{
    if k > 0 {
        lemma_depth_push(prog, cmd, k - 1);
    }
}

/// Replacing a command by one with the same bracket delta does not change
/// the depth anywhere.
proof fn lemma_depth_update(prog: Seq<Commands>, j: int, cmd: Commands, k: int)
    requires
        0 <= j < prog.len(),
        k <= prog.len(),
        bracket_delta(cmd) == bracket_delta(prog[j]),
    ensures
        depth(prog.update(j, cmd), k) == depth(prog, k),
    decreases k,
{
    if k > 0 {
        lemma_depth_update(prog, j, cmd, k - 1);
    }
}

/// There are at most as many provisional commands as source characters.
proof fn lemma_provisional_len(s: Seq<char>)
    ensures
        provisional_commands(s).len() <= s.len(),
    decreases s.len(),
{
    if s.len() > 0 {
        lemma_provisional_len(s.drop_last());
    }
}

/// The total depth of the provisional commands is the difference of the
/// bracket counts of the source text.
proof fn lemma_provisional_total_depth(s: Seq<char>)
    ensures
        depth(provisional_commands(s), provisional_commands(s).len() as int) == opens(s) - closes(
            s,
        ),
    decreases s.len(),
{
    if s.len() > 0 {
        let s0 = s.drop_last();
        let c = s.last();
        lemma_provisional_total_depth(s0);
        if is_instruction_char(c) {
            let p0 = provisional_commands(s0);
            lemma_depth_push(p0, crate::cmds::command_of(c), p0.len() as int);
        }
    }
}

/// If no prefix of the source text closes more brackets than it opens, the
/// depth of the provisional commands never goes negative.
proof fn lemma_provisional_depth_nonneg(s: Seq<char>)
    requires
        forall|i: int| 0 <= i <= s.len() ==> closes(#[trigger] s.take(i)) <= opens(s.take(i)),
    ensures
        forall|j: int|
            0 <= j <= provisional_commands(s).len() ==> depth(provisional_commands(s), j) >= 0,
    decreases s.len(),
{
    if s.len() > 0 {
        let s0 = s.drop_last();
        let c = s.last();
        let p = provisional_commands(s);
        let p0 = provisional_commands(s0);
        assert forall|i: int| 0 <= i <= s0.len() implies closes(#[trigger] s0.take(i)) <= opens(
            s0.take(i),
        ) by {
            assert(s0.take(i) =~= s.take(i));
        }
        lemma_provisional_depth_nonneg(s0);
        assert forall|j: int| 0 <= j <= p.len() implies depth(p, j) >= 0 by {
            if is_instruction_char(c) {
                if j <= p0.len() {
                    lemma_depth_push(p0, crate::cmds::command_of(c), j);
                } else {
                    lemma_provisional_total_depth(s);
                    assert(s.take(s.len() as int) =~= s);
                    assert(closes(s) <= opens(s));
                }
            }
        }
    }
}

/// A balanced source text yields provisional commands whose brackets are
/// balanced.
proof fn lemma_provisional_balanced(s: Seq<char>)
    requires
        balanced(s),
    ensures
        brackets_balanced(provisional_commands(s)),
{
    lemma_provisional_total_depth(s);
    lemma_provisional_depth_nonneg(s);
}

/// An opening bracket has at most one LIFO match.
pub proof fn lemma_lifo_match_unique_close(prog: Seq<Commands>, i: int, j1: int, j2: int)
    requires
        lifo_match(prog, i, j1),
        lifo_match(prog, i, j2),
    ensures
        j1 == j2,
{
    if j1 < j2 {
        assert(depth(prog, j1 + 1) > depth(prog, i));
    } else if j2 < j1 {
        assert(depth(prog, j2 + 1) > depth(prog, i));
    }
}

/// A closing bracket has at most one LIFO match.
pub proof fn lemma_lifo_match_unique_open(prog: Seq<Commands>, i1: int, i2: int, j: int)
    requires
        lifo_match(prog, i1, j),
        lifo_match(prog, i2, j),
    ensures
        i1 == i2,
{
    if i1 < i2 {
        assert(depth(prog, i2) > depth(prog, i1));
    } else if i2 < i1 {
        assert(depth(prog, i1) > depth(prog, i2));
    }
}

/// Position `k` holds an opening bracket that is still unmatched in front
/// of position `i`: the depth stays above its own level from `k` up to `i`.
spec fn pending(prog: Seq<Commands>, k: int, i: int) -> bool {
    &&& 0 <= k < i
    &&& is_open_bracket(prog[k])
    &&& forall|m: int| k < m <= i ==> depth(prog, m) > depth(prog, k)
}

/// What the resolution pass has established for position `k` when it is
/// about to look at position `i`: a still-pending opening bracket carries
/// the placeholder; every other bracket before `i` is paired with its LIFO
/// match and the pair point at each other.
spec fn resolved_at(prog: Seq<Commands>, i: int, k: int) -> bool {
    match prog[k] {
        Commands::LeftBracket(t) => if pending(prog, k, i) {
            t == 0
        } else {
            &&& lifo_match(prog, k, t as int)
            &&& t < i
            &&& prog[t as int] == Commands::RightBracket(k as usize)
        },
        Commands::RightBracket(t) => {
            &&& lifo_match(prog, t as int, k)
            &&& prog[t as int] == Commands::LeftBracket(k as usize)
        },
        _ => true,
    }
}

/// Two opening brackets pending at the same position with the same depth
/// are the same bracket.
proof fn lemma_pending_unique(prog: Seq<Commands>, k1: int, k2: int, i: int)
    requires
        pending(prog, k1, i),
        pending(prog, k2, i),
        depth(prog, k1) == depth(prog, k2),
    ensures
        k1 == k2,
{
    if k1 < k2 {
        assert(depth(prog, k2) > depth(prog, k1));
    } else if k2 < k1 {
        assert(depth(prog, k1) > depth(prog, k2));
    }
}

/// A LIFO match carries over to a program of the same shape: same length,
/// same depths, same bracket kinds everywhere.
proof fn lemma_lifo_match_transfer(c: Seq<Commands>, c2: Seq<Commands>, a: int, b: int)
    requires
        c2.len() == c.len(),
        forall|k: int| 0 <= k <= c.len() ==> depth(c2, k) == depth(c, k),
        forall|x: int|
            0 <= x < c.len() ==> is_open_bracket(#[trigger] c2[x]) == is_open_bracket(c[x])
                && is_close_bracket(c2[x]) == is_close_bracket(c[x]),
        lifo_match(c, a, b),
    ensures
        lifo_match(c2, a, b),
{
    assert forall|m: int| a < m <= b implies depth(c2, m) > depth(c2, a) by {
        assert(depth(c, m) > depth(c, a));
    }
}

/// A pending bracket stays pending in a program of the same shape.
proof fn lemma_pending_transfer(c: Seq<Commands>, c2: Seq<Commands>, k: int, i: int)
    requires
        c2.len() == c.len(),
        i <= c.len(),
        forall|m: int| 0 <= m <= c.len() ==> depth(c2, m) == depth(c, m),
        forall|x: int|
            0 <= x < c.len() ==> is_open_bracket(#[trigger] c2[x]) == is_open_bracket(c[x])
                && is_close_bracket(c2[x]) == is_close_bracket(c[x]),
        pending(c, k, i),
    ensures
        pending(c2, k, i),
{
    assert forall|m: int| k < m <= i implies depth(c2, m) > depth(c2, k) by {
        assert(depth(c, m) > depth(c, k));
    }
}

/// The induction behind the resolution law: if everything before `i` is
/// already correctly paired, the pending openers are exactly the stack, and
/// everything from `i` on still carries the placeholder, then finishing the
/// pass pairs every bracket with its LIFO match.
proof fn lemma_resolve_from_resolves(c: Seq<Commands>, i: int, stack: Seq<usize>)
    requires
        0 <= i <= c.len(),
        c.len() <= usize::MAX,
        brackets_balanced(c),
        forall|k: int|
            i <= k < c.len() ==> match #[trigger] c[k] {
                Commands::LeftBracket(t) => t == 0,
                Commands::RightBracket(t) => t == 0,
                _ => true,
            },
        stack.len() == depth(c, i),
        forall|t: int|
            0 <= t < stack.len() ==> {
                &&& #[trigger] stack[t] < i
                &&& c[stack[t] as int] == Commands::LeftBracket(0)
                &&& depth(c, stack[t] as int) == t
                &&& pending(c, stack[t] as int, i)
            },
        forall|k: int| 0 <= k < i ==> #[trigger] resolved_at(c, i, k),
    ensures
        jumps_resolved(resolve_from(c, i, stack)),
    decreases c.len() - i,
{
    let len = c.len() as int;
    if i >= len {
        assert forall|k: int| 0 <= k < len implies match #[trigger] c[k] {
            Commands::LeftBracket(t) => lifo_match(c, k, t as int) && c[t as int]
                == Commands::RightBracket(k as usize),
            Commands::RightBracket(t) => lifo_match(c, t as int, k) && c[t as int]
                == Commands::LeftBracket(k as usize),
            _ => true,
        } by {
            assert(resolved_at(c, i, k));
            if is_open_bracket(c[k]) && pending(c, k, i) {
                assert(depth(c, i) > depth(c, k));
                assert(depth(c, k) >= 0);
                assert(false);
            }
        }
        assert(jumps_resolved(c));
    } else if c[i] == Commands::LeftBracket(0) {
        let stack2 = stack.push(i as usize);
        assert(depth(c, i + 1) == depth(c, i) + 1);
        assert forall|t: int|
            0 <= t < stack2.len() implies {
                &&& #[trigger] stack2[t] < i + 1
                &&& c[stack2[t] as int] == Commands::LeftBracket(0)
                &&& depth(c, stack2[t] as int) == t
                &&& pending(c, stack2[t] as int, i + 1)
            } by {
            if t < stack.len() {
                let p = stack[t] as int;
                assert(pending(c, p, i));
                assert forall|m: int| p < m <= i + 1 implies depth(c, m) > depth(c, p) by {
                    if m <= i {
                        assert(depth(c, m) > depth(c, p));
                    }
                }
            } else {
                assert(stack2[t] == i as usize);
                assert(stack2[t] as int == i);
                assert forall|m: int| i < m <= i + 1 implies depth(c, m) > depth(c, i) by {}
                assert(pending(c, i, i + 1));
            }
        }
        assert forall|k: int| 0 <= k < i + 1 implies #[trigger] resolved_at(c, i + 1, k) by {
            if k == i {
                assert(pending(c, i, i + 1));
            } else {
                assert(resolved_at(c, i, k));
                match c[k] {
                    Commands::LeftBracket(t) => {
                        if pending(c, k, i) {
                            assert(depth(c, i) > depth(c, k));
                            assert forall|m: int| k < m <= i + 1 implies depth(c, m) > depth(
                                c,
                                k,
                            ) by {
                                if m <= i {
                                    assert(depth(c, m) > depth(c, k));
                                }
                            }
                            assert(pending(c, k, i + 1));
                        } else {
                            if pending(c, k, i + 1) {
                                assert forall|m: int| k < m <= i implies depth(c, m) > depth(
                                    c,
                                    k,
                                ) by {
                                    assert(depth(c, m) > depth(c, k));
                                }
                                assert(pending(c, k, i));
                            }
                        }
                    },
                    _ => {},
                }
            }
        }
        lemma_resolve_from_resolves(c, i + 1, stack2);
    } else if c[i] == Commands::RightBracket(0) && stack.len() > 0 && stack.last() < c.len() {
        let o = stack.last();
        let l = o as int;
        let t_top = stack.len() - 1;
        assert(stack[t_top] == o);
        assert(l < i && c[l] == Commands::LeftBracket(0) && depth(c, l) == t_top && pending(
            c,
            l,
            i,
        ));
        assert(depth(c, i + 1) == depth(c, i) - 1);
        assert(lifo_match(c, l, i));
        let c1 = c.update(l, Commands::LeftBracket(i as usize));
        let c2 = c1.update(i, Commands::RightBracket(o));
        assert(c1[i] == c[i]);
        assert forall|k: int| 0 <= k <= c.len() implies depth(c2, k) == depth(c, k) by {
            lemma_depth_update(c, l, Commands::LeftBracket(i as usize), k);
            lemma_depth_update(c1, i, Commands::RightBracket(o), k);
        }
        assert forall|x: int|
            0 <= x < c.len() implies is_open_bracket(#[trigger] c2[x]) == is_open_bracket(c[x])
                && is_close_bracket(c2[x]) == is_close_bracket(c[x]) by {}
        assert(brackets_balanced(c2));
        lemma_lifo_match_transfer(c, c2, l, i);
        let stack2 = stack.drop_last();
        assert forall|t: int|
            0 <= t < stack2.len() implies {
                &&& #[trigger] stack2[t] < i + 1
                &&& c2[stack2[t] as int] == Commands::LeftBracket(0)
                &&& depth(c2, stack2[t] as int) == t
                &&& pending(c2, stack2[t] as int, i + 1)
            } by {
            let p = stack[t] as int;
            assert(depth(c, p) == t && t < t_top);
            assert(p != l);
            assert(c2[p] == c[p]);
            assert forall|m: int| p < m <= i + 1 implies depth(c2, m) > depth(c2, p) by {
                if m <= i {
                    assert(depth(c, m) > depth(c, p));
                } else {
                    assert(depth(c2, m) == t_top);
                }
            }
        }
        assert forall|k: int| 0 <= k < i + 1 implies #[trigger] resolved_at(c2, i + 1, k) by {
            if k == i {
                assert(c2[i] == Commands::RightBracket(o));
                assert(o as int == l);
                assert(lifo_match(c2, l, i));
                assert(c2[l] == Commands::LeftBracket(i as usize));
                assert(i as usize as int == i);
            } else if k == l {
                assert(c2[l] == Commands::LeftBracket(i as usize));
                assert(i as usize as int == i);
                assert(depth(c2, i + 1) == depth(c2, l));
                assert(!pending(c2, l, i + 1));
                assert(lifo_match(c2, l, i));
                assert(l as usize == o);
                assert(c2[i] == Commands::RightBracket(l as usize));
            } else {
                assert(resolved_at(c, i, k));
                match c[k] {
                    Commands::LeftBracket(t) => {
                        assert(c2[k] == c[k]);
                        if pending(c, k, i) {
                            let d = depth(c, k);
                            assert(depth(c, i) > d);
                            assert(d < stack.len());
                            assert(pending(c, stack[d] as int, i) && depth(c, stack[d] as int)
                                == d);
                            lemma_pending_unique(c, k, stack[d] as int, i);
                            assert(k == stack[d] as int);
                            assert(d != t_top);
                            assert forall|m: int| k < m <= i + 1 implies depth(c2, m) > depth(
                                c2,
                                k,
                            ) by {
                                if m <= i {
                                    assert(depth(c, m) > depth(c, k));
                                } else {
                                    assert(depth(c2, m) == t_top);
                                }
                            }
                            assert(pending(c2, k, i + 1));
                        } else {
                            if pending(c2, k, i + 1) {
                                lemma_pending_transfer(c2, c, k, i + 1);
                                assert forall|m: int| k < m <= i implies depth(c, m) > depth(
                                    c,
                                    k,
                                ) by {
                                    assert(depth(c, m) > depth(c, k));
                                }
                                assert(pending(c, k, i));
                                assert(false);
                            }
                            lemma_lifo_match_transfer(c, c2, k, t as int);
                            assert(c[t as int] == Commands::RightBracket(k as usize));
                            assert(t as int != l && t as int != i);
                            assert(c2[t as int] == c[t as int]);
                        }
                    },
                    Commands::RightBracket(t) => {
                        assert(c2[k] == c[k]);
                        let p = t as int;
                        assert(lifo_match(c, p, k) && c[p] == Commands::LeftBracket(k as usize));
                        assert(k >= 1);
                        assert(p != l && p != i);
                        assert(c2[p] == c[p]);
                        lemma_lifo_match_transfer(c, c2, p, k);
                    },
                    _ => {},
                }
            }
        }
        assert forall|k: int|
            i + 1 <= k < c2.len() implies match #[trigger] c2[k] {
                Commands::LeftBracket(t) => t == 0,
                Commands::RightBracket(t) => t == 0,
                _ => true,
            } by {
            assert(c2[k] == c[k]);
        }
        lemma_resolve_from_resolves(c2, i + 1, stack2);
        assert(resolve_from(c, i, stack) == resolve_from(c2, i + 1, stack2));
    } else {
        if is_close_bracket(c[i]) {
            assert(c[i] == Commands::RightBracket(0));
            assert(depth(c, i + 1) == depth(c, i) - 1);
            assert(depth(c, i + 1) >= 0);
            assert(stack.len() > 0);
            assert(stack[stack.len() - 1] == stack.last());
            assert(stack.last() < i);
            assert(false);
        }
        if is_open_bracket(c[i]) {
            assert(c[i] == Commands::LeftBracket(0));
            assert(false);
        }
        assert(bracket_delta(c[i]) == 0);
        assert(depth(c, i + 1) == depth(c, i));
        assert forall|t: int|
            0 <= t < stack.len() implies {
                &&& #[trigger] stack[t] < i + 1
                &&& c[stack[t] as int] == Commands::LeftBracket(0)
                &&& depth(c, stack[t] as int) == t
                &&& pending(c, stack[t] as int, i + 1)
            } by {
            let p = stack[t] as int;
            assert(pending(c, p, i));
            assert forall|m: int| p < m <= i + 1 implies depth(c, m) > depth(c, p) by {
                if m <= i {
                    assert(depth(c, m) > depth(c, p));
                }
            }
        }
        assert forall|k: int| 0 <= k < i + 1 implies #[trigger] resolved_at(c, i + 1, k) by {
            if k == i {
            } else {
                assert(resolved_at(c, i, k));
                match c[k] {
                    Commands::LeftBracket(t) => {
                        if pending(c, k, i) {
                            assert forall|m: int| k < m <= i + 1 implies depth(c, m) > depth(
                                c,
                                k,
                            ) by {
                                if m <= i {
                                    assert(depth(c, m) > depth(c, k));
                                }
                            }
                            assert(pending(c, k, i + 1));
                        } else {
                            if pending(c, k, i + 1) {
                                assert forall|m: int| k < m <= i implies depth(c, m) > depth(
                                    c,
                                    k,
                                ) by {
                                    assert(depth(c, m) > depth(c, k));
                                }
                                assert(pending(c, k, i));
                            }
                        }
                    },
                    _ => {},
                }
            }
        }
        lemma_resolve_from_resolves(c, i + 1, stack);
    }
}

/// For a balanced source text, jump resolution pairs every bracket with the
/// position of its uniquely matching partner under strict LIFO nesting, and
/// matched brackets point at each other.
pub proof fn lemma_jump_resolution(s: Seq<char>)
    requires
        balanced(s),
        s.len() <= usize::MAX,
    ensures
        jumps_resolved(resolved_commands(s)),
{
    let c = provisional_commands(s);
    lemma_provisional_len(s);
    lemma_provisional_balanced(s);
    crate::cmds::lemma_provisional_placeholders(s);
    lemma_resolve_from_resolves(c, 0, Seq::empty());
}

} // verus!
