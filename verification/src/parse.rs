//! Splitting one line of input into commands and dispatching each in turn.
//!
//! A line is split on the separator class; runs of separators produce no
//! empty commands, and every segment is trimmed of whitespace and of line
//! terminators before it is looked at.  Each non-empty command is numbered
//! from one and carries a marker exactly when the console would print its
//! number: when it is not the first command of the line or another
//! non-empty command follows it.

use vstd::prelude::*;
use vstd::slice::slice_index_get;
use vstd::slice::slice_to_vec;
use crate::bind::BindConfig;
use crate::error::InternalError;
use crate::error::InternalErrorModel;
use crate::route::dispatch;
use crate::route::route_spec;
use crate::route::Bound;
use crate::route::BoundModel;
use crate::tables::spare_slots;
use crate::tables::Handler;
use crate::text::concat_strs;
use crate::text::dec_str;
use crate::text::usize_to_string;
use crate::tokens::class_contains;
use crate::tokens::in_class;
use crate::tokens::lemma_in_class_union;
use crate::tokens::lemma_token_len_props;
use crate::tokens::lemma_trim_all_class;
use crate::tokens::lemma_trim_keeps;
use crate::tokens::lemma_trim_pred;
use crate::tokens::lemma_trim_props;
use crate::tokens::opt_of;
use crate::tokens::split_at_char;
use crate::tokens::split_first;
use crate::tokens::split_residue;
use crate::tokens::token_len;
use crate::tokens::trim_chars;
use crate::tokens::trim_spec;

verus! {

/// One command of a line at the specification level: its 1-based number
/// among the non-empty commands, whether its marker is printed, and its
/// text (trimmed of whitespace and line terminators, never empty).
pub struct LineCmdModel {
    pub number: int,
    pub marker: bool,
    pub text: Seq<char>,
}

/// The line-terminator characters, trimmed from every command segment
/// whatever the configured classes say: a terminator left on the line by
/// the reader never becomes part of a command.
pub open spec fn line_ends() -> Seq<char> {
    seq!['\r', '\n']
}

/// Whether any character of `s` can begin a command: one that is neither
/// whitespace, nor a separator, nor a line terminator.
pub open spec fn has_command_char(s: Seq<char>, ws: Seq<char>, nl: Seq<char>) -> bool {
    exists|i: int|
        0 <= i < s.len() && !in_class(ws, #[trigger] s[i]) && !in_class(nl, s[i]) && !in_class(
            line_ends(),
            s[i],
        )
}

/// The commands of a line, numbered from `number`: pieces are split off at
/// separator runs, trimmed of whitespace and line terminators, and empty
/// pieces are skipped without consuming a number.  A command's marker is
/// printed when it is not the first of the line or another non-empty
/// command follows it.
pub open spec fn line_commands(
    s: Seq<char>,
    ws: Seq<char>,
    nl: Seq<char>,
    number: int,
) -> Seq<LineCmdModel>
    decreases s.len(),
    via line_commands_decreases
{
    let residue = split_residue(s, nl);
    let piece = split_first(s, nl);
    let cmd = trim_spec(piece, ws + line_ends());
    if cmd.len() == 0 {
        if residue.len() == 0 {
            Seq::empty()
        } else {
            line_commands(residue, ws, nl, number)
        }
    } else {
        let tail = if residue.len() == 0 {
            Seq::<LineCmdModel>::empty()
        } else {
            line_commands(residue, ws, nl, number + 1)
        };
        let item = LineCmdModel { number, marker: number != 1 || tail.len() > 0, text: cmd };
        seq![item] + tail
    }
}

/// A non-empty remainder of command splitting is strictly shorter than its
/// input: it sits behind at least one leading non-separator character.
pub proof fn lemma_split_residue_shrinks(s: Seq<char>, nl: Seq<char>)
    ensures
        split_residue(s, nl).len() > 0 ==> split_residue(s, nl).len() < s.len(),
        split_first(s, nl).len() <= s.len(),
{
    let t = trim_spec(s, nl);
    lemma_trim_props(s, nl);
    lemma_token_len_props(t, nl);
    let k = token_len(t, nl) as int;
    if k < t.len() && t.len() > 0 {
        assert(!crate::tokens::in_class(nl, t[0]));
        assert(token_len(t, nl) >= 1);
    }
}

#[via_fn]
proof fn line_commands_decreases(s: Seq<char>, ws: Seq<char>, nl: Seq<char>, number: int) {
    lemma_split_residue_shrinks(s, nl);
}

/// A line of separator, whitespace and line-terminator characters alone
/// yields zero commands, whatever the starting number, and so never an
/// error.
pub proof fn lemma_only_separators_no_commands(
    s: Seq<char>,
    ws: Seq<char>,
    nl: Seq<char>,
    number: int,
)
    requires
        forall|i: int|
            0 <= i < s.len() ==> in_class(ws, #[trigger] s[i]) || in_class(nl, s[i]) || in_class(
                line_ends(),
                s[i],
            ),
    ensures
        line_commands(s, ws, nl, number) == Seq::<LineCmdModel>::empty(),
    decreases s.len(),
{
    let t = trim_spec(s, nl);
    let p = |c: char| in_class(ws, c) || in_class(nl, c) || in_class(line_ends(), c);
    assert forall|i: int| 0 <= i < s.len() implies p(s[i]) by {
        assert(in_class(ws, s[i]) || in_class(nl, s[i]) || in_class(line_ends(), s[i]));
    }
    lemma_trim_pred(s, nl, p);
    lemma_trim_props(s, nl);
    lemma_token_len_props(t, nl);
    let k = token_len(t, nl) as int;
    let piece = split_first(s, nl);
    assert(piece == t.take(k));
    assert forall|i: int| 0 <= i < piece.len() implies in_class(
        ws + line_ends(),
        #[trigger] piece[i],
    ) by {
        assert(piece[i] == t[i]);
        assert(p(t[i]));
        assert(!in_class(nl, t[i]));
        lemma_in_class_union(ws, line_ends(), t[i]);
    }
    lemma_trim_all_class(piece, ws + line_ends());
    let residue = split_residue(s, nl);
    if residue.len() > 0 {
        lemma_split_residue_shrinks(s, nl);
        assert(residue == t.skip(k));
        assert forall|i: int|
            0 <= i < residue.len() implies in_class(ws, #[trigger] residue[i]) || in_class(
            nl,
            residue[i],
        ) || in_class(line_ends(), residue[i]) by {
            assert(residue[i] == t[i + k]);
            assert(p(t[i + k]));
        }
        lemma_only_separators_no_commands(residue, ws, nl, number);
    }
    assert(line_commands(s, ws, nl, number) =~= Seq::<LineCmdModel>::empty());
}

/// A line holds at least one command exactly when it holds a character
/// that can begin one.
pub proof fn lemma_has_command_iff(s: Seq<char>, ws: Seq<char>, nl: Seq<char>, number: int)
    ensures
        line_commands(s, ws, nl, number).len() > 0 <==> has_command_char(s, ws, nl),
    decreases s.len(),
{
    if !has_command_char(s, ws, nl) {
        assert forall|i: int|
            0 <= i < s.len() implies in_class(ws, #[trigger] s[i]) || in_class(nl, s[i])
            || in_class(line_ends(), s[i]) by {
            assert(!(!in_class(ws, s[i]) && !in_class(nl, s[i]) && !in_class(line_ends(), s[i])));
        }
        lemma_only_separators_no_commands(s, ws, nl, number);
    } else {
        let p = |c: char| !in_class(ws, c) && !in_class(nl, c) && !in_class(line_ends(), c);
        let w = choose|i: int|
            0 <= i < s.len() && !in_class(ws, #[trigger] s[i]) && !in_class(nl, s[i]) && !in_class(
                line_ends(),
                s[i],
            );
        assert(p(s[w]));
        lemma_trim_keeps(s, nl, p);
        let t = trim_spec(s, nl);
        lemma_trim_props(s, nl);
        lemma_token_len_props(t, nl);
        let j = choose|i: int| 0 <= i < t.len() && p(#[trigger] t[i]);
        let k = token_len(t, nl) as int;
        let piece = split_first(s, nl);
        let residue = split_residue(s, nl);
        let cmd = trim_spec(piece, ws + line_ends());
        if j < k {
            assert(piece == t.take(k));
            assert(piece[j] == t[j]);
            assert(p(piece[j]));
            assert forall|c: char| p(c) implies !in_class(ws + line_ends(), c) by {
                lemma_in_class_union(ws, line_ends(), c);
            }
            lemma_trim_keeps(piece, ws + line_ends(), p);
            assert(cmd.len() > 0);
        } else {
            assert(k < t.len());
            assert(residue == t.skip(k));
            assert(residue[j - k] == t[j]);
            assert(has_command_char(residue, ws, nl));
            lemma_split_residue_shrinks(s, nl);
            lemma_has_command_iff(residue, ws, nl, number);
            if cmd.len() > 0 {
            } else {
                assert(line_commands(s, ws, nl, number) == line_commands(residue, ws, nl, number));
            }
        }
    }
}

/// The outcome of one command of a line: its number, whether its marker is
/// printed before its output, and the result of routing and binding it.
#[derive(Debug)]
pub struct CommandOutcome {
    pub number: usize,
    pub marker: bool,
    pub result: Result<Bound, InternalError>,
}

/// The specification-level value of a `CommandOutcome`.
pub struct CommandOutcomeModel {
    pub number: int,
    pub marker: bool,
    pub result: Result<BoundModel, InternalErrorModel>,
}

impl View for CommandOutcome {
    type V = CommandOutcomeModel;

    open spec fn view(&self) -> CommandOutcomeModel {
        CommandOutcomeModel {
            number: self.number as int,
            marker: self.marker,
            result: match self.result {
                Ok(b) => Ok(b@),
                Err(e) => Err(e@),
            },
        }
    }
}

/// The specification-level values of a vector of outcomes.
pub open spec fn outcomes_model(s: Seq<CommandOutcome>) -> Seq<CommandOutcomeModel> {
    s.map_values(|o: CommandOutcome| o@)
}

/// What dispatching each command of a list yields: every command is routed
/// from the table root at index 1.
pub open spec fn cmds_outcomes(
    h: Handler,
    cmds: Seq<LineCmdModel>,
    ws: Seq<char>,
    advance_on_default: bool,
) -> Seq<CommandOutcomeModel> {
    cmds.map_values(
        |c: LineCmdModel|
            CommandOutcomeModel {
                number: c.number,
                marker: c.marker,
                result: route_spec(h, opt_of(c.text), ws, 1, advance_on_default),
            },
    )
}

/// What parsing a whole line yields.
pub open spec fn parse_input_spec(
    h: Handler,
    line: Seq<char>,
    ws: Seq<char>,
    nl: Seq<char>,
    advance_on_default: bool,
) -> Seq<CommandOutcomeModel> {
    cmds_outcomes(h, line_commands(line, ws, nl, 1), ws, advance_on_default)
}

/// Every failed command of a line carries an error that renders to a
/// message: the console can always print its diagnostic.
pub proof fn lemma_line_errors_renderable(
    h: Handler,
    line: Seq<char>,
    ws: Seq<char>,
    nl: Seq<char>,
    advance_on_default: bool,
)
    ensures
        forall|i: int|
            0 <= i < parse_input_spec(h, line, ws, nl, advance_on_default).len() ==> ((
            #[trigger] parse_input_spec(h, line, ws, nl, advance_on_default)[i]).result matches Err(
                e,
            ) ==> crate::error::renderable(e.variant)),
{
    let outs = parse_input_spec(h, line, ws, nl, advance_on_default);
    assert forall|i: int| 0 <= i < outs.len() implies ((#[trigger] outs[i]).result matches Err(e)
        ==> crate::error::renderable(e.variant)) by {
        let cmds = line_commands(line, ws, nl, 1);
        assert(outs[i].result == route_spec(h, opt_of(cmds[i].text), ws, 1, advance_on_default));
        crate::route::lemma_route_err_renderable(
            h,
            opt_of(cmds[i].text),
            ws,
            1,
            advance_on_default,
        );
    }
}

fn has_more_commands(s: &[char], ws: &[char], nl: &[char]) -> (r: bool)
    ensures
        r == has_command_char(s@, ws@, nl@),
{
    let n = s.len();
    let mut i: usize = 0;
    loop
        invariant
            0 <= i <= n,
            n == s@.len(),
            forall|j: int|
                0 <= j < i ==> in_class(ws@, #[trigger] s@[j]) || in_class(nl@, s@[j]) || in_class(
                    line_ends(),
                    s@[j],
                ),
        ensures
            (i < n && !in_class(ws@, s@[i as int]) && !in_class(nl@, s@[i as int]) && !in_class(
                line_ends(),
                s@[i as int],
            )) || (i == n && forall|j: int|
                0 <= j < n ==> in_class(ws@, #[trigger] s@[j]) || in_class(nl@, s@[j]) || in_class(
                    line_ends(),
                    s@[j],
                )),
        decreases n - i,
    {
        if i == n {
            break ;
        }
        let c = *slice_index_get(s, i);
        if !class_contains(ws, c) && !class_contains(nl, c) && c != '\r' && c != '\n' {
            proof {
                assert(!in_class(line_ends(), c)) by {
                    if in_class(line_ends(), c) {
                        let m = choose|m: int| 0 <= m < line_ends().len() && line_ends()[m] == c;
                        assert(m == 0 || m == 1);
                    }
                }
            }
            break ;
        }
        proof {
            if c == '\r' {
                assert(line_ends()[0] == c);
                assert(in_class(line_ends(), c));
            }
            if c == '\n' {
                assert(line_ends()[1] == c);
                assert(in_class(line_ends(), c));
            }
        }
        i += 1;
    }
    if i < s.len() {
        assert(has_command_char(s@, ws@, nl@));
        true
    } else {
        assert(!has_command_char(s@, ws@, nl@));
        false
    }
}

/// Splits a line into commands on the separator class and dispatches each
/// through the handler table, left to right.  Every segment is trimmed of
/// whitespace and line terminators; segments that are then empty are
/// skipped and consume no number.
pub fn parse_input(h: &Handler, line: &[char], ws: &[char], nl: &[char], cfg: BindConfig) -> (r:
    Vec<CommandOutcome>)
    requires
        crate::tables::handler_wf(*h),
        1 + line@.len() + spare_slots(*h) <= usize::MAX,
    ensures
        outcomes_model(r@) == parse_input_spec(
            *h,
            line@,
            ws@,
            nl@,
            cfg.advance_index_on_default,
        ),
{
    let mut wsx: Vec<char> = slice_to_vec(ws);
    wsx.push('\r');
    wsx.push('\n');
    proof {
        assert(wsx@ =~= ws@ + line_ends());
    }
    let mut out: Vec<CommandOutcome> = Vec::new();
    let mut rest: &[char] = line;
    let mut number: usize = 1;
    proof {
        assert(outcomes_model(out@) =~= Seq::<CommandOutcomeModel>::empty());
    }
    loop
        invariant_except_break
            parse_input_spec(*h, line@, ws@, nl@, cfg.advance_index_on_default) == outcomes_model(
                out@,
            ) + cmds_outcomes(
                *h,
                line_commands(rest@, ws@, nl@, number as int),
                ws@,
                cfg.advance_index_on_default,
            ),
        invariant
            crate::tables::handler_wf(*h),
            1 <= number,
            number + rest@.len() <= 1 + line@.len(),
            1 + line@.len() + spare_slots(*h) <= usize::MAX,
            wsx@ == ws@ + line_ends(),
        ensures
            parse_input_spec(*h, line@, ws@, nl@, cfg.advance_index_on_default) == outcomes_model(
                out@,
            ),
        decreases rest@.len(),
    {
        proof {
            lemma_split_residue_shrinks(rest@, nl@);
        }
        let (residue, piece) = split_at_char(rest, nl);
        let cmd = trim_chars(piece, wsx.as_slice());
        proof {
            lemma_trim_props(piece@, wsx@);
            if cmd@.len() > 0 {
                lemma_in_class_union(ws@, line_ends(), cmd@[0]);
                lemma_in_class_union(ws@, line_ends(), cmd@[cmd@.len() - 1]);
                assert(crate::tokens::is_trimmed(cmd@, ws@));
            }
        }
        if cmd.len() == 0 {
            if residue.len() == 0 {
                proof {
                    assert(line_commands(rest@, ws@, nl@, number as int) =~= Seq::<
                        LineCmdModel,
                    >::empty());
                    assert(cmds_outcomes(
                        *h,
                        line_commands(rest@, ws@, nl@, number as int),
                        ws@,
                        cfg.advance_index_on_default,
                    ) =~= Seq::<CommandOutcomeModel>::empty());
                    assert(outcomes_model(out@) + Seq::<CommandOutcomeModel>::empty()
                        =~= outcomes_model(out@));
                }
                break ;
            }
            rest = residue;
        } else {
            let more = has_more_commands(residue, ws, nl);
            proof {
                lemma_has_command_iff(residue@, ws@, nl@, number as int + 1);
            }
            let marker = number != 1 || more;
            let b = dispatch(h, cmd, ws, 1, cfg);
            let ghost pre_out = out@;
            let outcome = CommandOutcome { number, marker, result: b };
            let ghost tail = (if residue@.len() == 0 {
                Seq::<LineCmdModel>::empty()
            } else {
                line_commands(residue@, ws@, nl@, number as int + 1)
            });
            let ghost item = LineCmdModel {
                number: number as int,
                marker,
                text: cmd@,
            };
            proof {
                if residue@.len() == 0 {
                    assert(!has_command_char(residue@, ws@, nl@));
                    assert(tail.len() == 0);
                }
                assert(marker == (number as int != 1 || tail.len() > 0));
                assert(outcome@.result == route_spec(
                    *h,
                    opt_of(cmd@),
                    ws@,
                    1,
                    cfg.advance_index_on_default,
                ));
            }
            out.push(outcome);
            proof {
                let cmds = line_commands(rest@, ws@, nl@, number as int);
                assert(cmds == seq![item] + tail);
                assert(outcomes_model(out@) =~= outcomes_model(pre_out).push(outcome@));
                assert(cmds_outcomes(*h, cmds, ws@, cfg.advance_index_on_default) =~= seq![
                    outcome@,
                ] + cmds_outcomes(*h, tail, ws@, cfg.advance_index_on_default));
                if residue@.len() == 0 {
                    assert(cmds_outcomes(*h, tail, ws@, cfg.advance_index_on_default) =~= Seq::<
                        CommandOutcomeModel,
                    >::empty());
                    assert(outcomes_model(pre_out) + (seq![outcome@] + cmds_outcomes(
                        *h,
                        tail,
                        ws@,
                        cfg.advance_index_on_default,
                    )) =~= outcomes_model(out@));
                } else {
                    assert(outcomes_model(pre_out) + (seq![outcome@] + cmds_outcomes(
                        *h,
                        tail,
                        ws@,
                        cfg.advance_index_on_default,
                    )) =~= outcomes_model(out@) + cmds_outcomes(
                        *h,
                        tail,
                        ws@,
                        cfg.advance_index_on_default,
                    ));
                }
            }
            if residue.len() == 0 {
                break ;
            }
            rest = residue;
            number += 1;
        }
    }
    out
}

/// The marker printed before a command's own output: the command's number
/// followed by the configured counter suffix.
pub fn marker_text(number: usize, suffix: &str) -> (r: String)
    ensures
        r@ == dec_str(number as nat) + suffix@,
{
    let n = usize_to_string(number);
    concat_strs(n.as_str(), suffix)
}

} // verus!
