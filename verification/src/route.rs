//! The scope router: walks a declared route table over the input cursor,
//! matching prefixes first (byte-literal, untokenized), then exact names
//! (token-based), then the fallback, recursively descending into
//! sub-routers until a leaf binder is reached.

use vstd::prelude::*;
use vstd::slice::slice_subrange;
use crate::bind::bind_fields;
use crate::bind::bind_spec;
use crate::bind::models_of;
use crate::bind::BindConfig;
use crate::convert::Value;
use crate::convert::ValueModel;
use crate::error::expected_model;
use crate::error::parse_model;
use crate::error::ArgType;
use crate::error::ErrorType;
use crate::error::InternalError;
use crate::error::InternalErrorModel;
use crate::error::ParseErr;
use crate::tables::handler_wf;
use crate::tables::lemma_names_spare;
use crate::tables::lemma_prefixes_spare;
use crate::tables::names_spare;
use crate::tables::prefixes_spare;
use crate::tables::spare_slots;
use crate::tables::table_spare;
use crate::tables::Handler;
use crate::tables::NameEntry;
use crate::tables::PrefixEntry;
use crate::text::chars_to_string;
use crate::tokens::head_tok;
use crate::tokens::is_trimmed;
use crate::tokens::lemma_token_rest_shrinks;
use crate::tokens::lemma_trim_props;
use crate::tokens::lemma_trim_trimmed;
use crate::tokens::next_token;
use crate::tokens::opt_of;
use crate::tokens::token_rest;
use crate::tokens::trim_chars;
use crate::tokens::trim_spec;
use crate::tokens::starts_with;
use crate::tokens::slice_eq;

verus! {

/// The outcome of a successful dispatch: the selected command identifier,
/// the bound record, and the dispatch index after binding.
#[derive(Debug)]
pub struct Bound {
    pub command: usize,
    pub record: Vec<Option<Value>>,
    pub index: usize,
}

/// The specification-level value of a `Bound`.
pub struct BoundModel {
    pub command: usize,
    pub record: Seq<Option<ValueModel>>,
    pub index: int,
}

impl View for Bound {
    type V = BoundModel;

    open spec fn view(&self) -> BoundModel {
        BoundModel {
            command: self.command,
            record: models_of(self.record@),
            index: self.index as int,
        }
    }
}

/// The position of the first prefix entry whose literal begins the input,
/// or the number of entries when none does.
pub open spec fn find_prefix(ps: Seq<PrefixEntry>, s: Seq<char>) -> int
    decreases ps.len(),
{
    if ps.len() == 0 {
        0
    } else if ps[0].literal@.is_prefix_of(s) {
        0
    } else {
        1 + find_prefix(ps.skip(1), s)
    }
}

/// The position of the first name entry whose literal equals the token, or
/// the number of entries when none does.
pub open spec fn find_name(ns: Seq<NameEntry>, tok: Seq<char>) -> int
    decreases ns.len(),
{
    if ns.len() == 0 {
        0
    } else if ns[0].literal@ == tok {
        0
    } else {
        1 + find_name(ns.skip(1), tok)
    }
}

/// `find_prefix` never answers below zero.
pub proof fn lemma_find_prefix_nonneg(ps: Seq<PrefixEntry>, s: Seq<char>)
    ensures
        find_prefix(ps, s) >= 0,
    decreases ps.len(),
{
    if ps.len() > 0 && !ps[0].literal@.is_prefix_of(s) {
        lemma_find_prefix_nonneg(ps.skip(1), s);
    }
}

/// `find_name` never answers below zero.
pub proof fn lemma_find_name_nonneg(ns: Seq<NameEntry>, tok: Seq<char>)
    ensures
        find_name(ns, tok) >= 0,
    decreases ns.len(),
{
    if ns.len() > 0 && ns[0].literal@ != tok {
        lemma_find_name_nonneg(ns.skip(1), tok);
    }
}

/// Any position with the first-match property is `find_prefix`.
proof fn lemma_find_prefix_at(ps: Seq<PrefixEntry>, s: Seq<char>, k: int)
    requires
        0 <= k <= ps.len(),
        forall|j: int| 0 <= j < k ==> !(#[trigger] ps[j]).literal@.is_prefix_of(s),
        k < ps.len() ==> ps[k].literal@.is_prefix_of(s),
    ensures
        find_prefix(ps, s) == k,
    decreases k,
{
    if k == 0 {
    } else {
        assert(!ps[0].literal@.is_prefix_of(s));
        assert forall|j: int| 0 <= j < k - 1 implies !(#[trigger] ps.skip(1)[j]).literal@.is_prefix_of(
            s,
        ) by {
            assert(ps.skip(1)[j] == ps[j + 1]);
        }
        assert(k - 1 < ps.skip(1).len() ==> ps.skip(1)[k - 1].literal@.is_prefix_of(s)) by {
            if k - 1 < ps.skip(1).len() {
                assert(ps.skip(1)[k - 1] == ps[k]);
            }
        }
        lemma_find_prefix_at(ps.skip(1), s, k - 1);
    }
}

/// Any position with the first-match property is `find_name`.
proof fn lemma_find_name_at(ns: Seq<NameEntry>, tok: Seq<char>, k: int)
    requires
        0 <= k <= ns.len(),
        forall|j: int| 0 <= j < k ==> (#[trigger] ns[j]).literal@ != tok,
        k < ns.len() ==> ns[k].literal@ == tok,
    ensures
        find_name(ns, tok) == k,
    decreases k,
{
    if k == 0 {
    } else {
        assert(ns[0].literal@ != tok);
        assert forall|j: int| 0 <= j < k - 1 implies (#[trigger] ns.skip(1)[j]).literal@ != tok by {
            assert(ns.skip(1)[j] == ns[j + 1]);
        }
        assert(k - 1 < ns.skip(1).len() ==> ns.skip(1)[k - 1].literal@ == tok) by {
            if k - 1 < ns.skip(1).len() {
                assert(ns.skip(1)[k - 1] == ns[k]);
            }
        }
        lemma_find_name_at(ns.skip(1), tok, k - 1);
    }
}

/// The routing state machine.  On empty input the fallback (if any) is
/// invoked with empty input, else the router fails `Expected` a scope.  On
/// non-empty input the prefixes are tried first in declaration order (a
/// match strips the literal and descends with the re-trimmed remainder and
/// the same index, a prefix consuming no dispatch slot); then one token is
/// taken and matched against the names in order (a match descends with the
/// trailing residual and the next index); then the fallback, if declared,
/// receives the original untokenized cursor at the unchanged index; and
/// otherwise the router fails `Parse` on the token.
pub open spec fn route_spec(
    h: Handler,
    input: Option<Seq<char>>,
    ws: Seq<char>,
    index: int,
    advance_on_default: bool,
) -> Result<BoundModel, InternalErrorModel>
    decreases h,
    via route_spec_decreases
{
    match h {
        Handler::Leaf(id, fs) => (match bind_spec(fs, input, ws, index, advance_on_default) {
            Ok((record, idx)) => Ok(BoundModel { command: id, record, index: idx }),
            Err(e) => Err(e),
        }),
        Handler::Scope(t) => (match input {
            None => (match t.fallback {
                Some(fb) => route_spec(*fb, None, ws, index, advance_on_default),
                None => Err(expected_model(index, ArgType::Scope)),
            }),
            Some(s) => {
                let pi = find_prefix(t.prefixes@, s);
                if pi < t.prefixes@.len() {
                    let lit = t.prefixes@[pi].literal@;
                    route_spec(
                        t.prefixes@[pi].handler,
                        opt_of(trim_spec(s.skip(lit.len() as int), ws)),
                        ws,
                        index,
                        advance_on_default,
                    )
                } else {
                    let tok = head_tok(s, ws);
                    let rest = token_rest(s, ws);
                    let ni = find_name(t.names@, tok);
                    if ni < t.names@.len() {
                        route_spec(
                            t.names@[ni].handler,
                            rest,
                            ws,
                            index + 1,
                            advance_on_default,
                        )
                    } else {
                        match t.fallback {
                            Some(fb) => route_spec(*fb, Some(s), ws, index, advance_on_default),
                            None => Err(parse_model(index, tok, ArgType::Scope)),
                        }
                    }
                }
            },
        }),
    }
}

#[via_fn]
proof fn route_spec_decreases(
    h: Handler,
    input: Option<Seq<char>>,
    ws: Seq<char>,
    index: int,
    advance_on_default: bool,
) {
    match h {
        Handler::Leaf(_, _) => {},
        Handler::Scope(t) => {
            match input {
                None => {},
                Some(s) => {
                    lemma_find_prefix_nonneg(t.prefixes@, s);
                    lemma_find_name_nonneg(t.names@, head_tok(s, ws));
                },
            }
        },
    }
}

/// Every error the engine reports renders to a message: a failed
/// conversion is only ever about a scope or an argument, never about a
/// flag marker.
pub proof fn lemma_route_err_renderable(
    h: Handler,
    input: Option<Seq<char>>,
    ws: Seq<char>,
    index: int,
    advance_on_default: bool,
)
    ensures
        (route_spec(h, input, ws, index, advance_on_default) matches Err(e)
            ==> crate::error::renderable(e.variant)),
    decreases h,
{
    match h {
        Handler::Leaf(id, fs) => {
            crate::bind::lemma_bind_err_renderable(fs, input, ws, index, advance_on_default);
        },
        Handler::Scope(t) => {
            match input {
                None => {
                    match t.fallback {
                        Some(fb) => {
                            lemma_route_err_renderable(*fb, None, ws, index, advance_on_default);
                        },
                        None => {},
                    }
                },
                Some(s) => {
                    lemma_find_prefix_nonneg(t.prefixes@, s);
                    let pi = find_prefix(t.prefixes@, s);
                    if pi < t.prefixes@.len() {
                        let lit = t.prefixes@[pi].literal@;
                        lemma_route_err_renderable(
                            t.prefixes@[pi].handler,
                            opt_of(trim_spec(s.skip(lit.len() as int), ws)),
                            ws,
                            index,
                            advance_on_default,
                        );
                    } else {
                        let tok = head_tok(s, ws);
                        lemma_find_name_nonneg(t.names@, tok);
                        let ni = find_name(t.names@, tok);
                        if ni < t.names@.len() {
                            lemma_route_err_renderable(
                                t.names@[ni].handler,
                                token_rest(s, ws),
                                ws,
                                index + 1,
                                advance_on_default,
                            );
                        } else {
                            match t.fallback {
                                Some(fb) => {
                                    lemma_route_err_renderable(
                                        *fb,
                                        Some(s),
                                        ws,
                                        index,
                                        advance_on_default,
                                    );
                                },
                                None => {},
                            }
                        }
                    }
                },
            }
        },
    }
}

fn find_prefix_exec(ps: &Vec<PrefixEntry>, s: &[char]) -> (pi: usize)
    ensures
        pi == find_prefix(ps@, s@),
        pi <= ps@.len(),
        pi < ps@.len() ==> ps@[pi as int].literal@.is_prefix_of(s@),
{
    let n = ps.len();
    let mut i: usize = 0;
    loop
        invariant
            0 <= i <= n,
            n == ps@.len(),
            forall|j: int| 0 <= j < i ==> !(#[trigger] ps@[j]).literal@.is_prefix_of(s@),
        ensures
            0 <= i <= n,
            n == ps@.len(),
            forall|j: int| 0 <= j < i ==> !(#[trigger] ps@[j]).literal@.is_prefix_of(s@),
            i < n ==> ps@[i as int].literal@.is_prefix_of(s@),
        decreases n - i,
    {
        if i == n {
            break ;
        }
        if starts_with(s, ps[i].literal.as_slice()) {
            break ;
        }
        i += 1;
    }
    proof {
        lemma_find_prefix_at(ps@, s@, i as int);
    }
    i
}

fn find_name_exec(ns: &Vec<NameEntry>, tok: &[char]) -> (ni: usize)
    ensures
        ni == find_name(ns@, tok@),
        ni <= ns@.len(),
        ni < ns@.len() ==> ns@[ni as int].literal@ == tok@,
{
    let n = ns.len();
    let mut i: usize = 0;
    loop
        invariant
            0 <= i <= n,
            n == ns@.len(),
            forall|j: int| 0 <= j < i ==> (#[trigger] ns@[j]).literal@ != tok@,
        ensures
            0 <= i <= n,
            n == ns@.len(),
            forall|j: int| 0 <= j < i ==> (#[trigger] ns@[j]).literal@ != tok@,
            i < n ==> ns@[i as int].literal@ == tok@,
        decreases n - i,
    {
        if i == n {
            break ;
        }
        if slice_eq(ns[i].literal.as_slice(), tok) {
            break ;
        }
        i += 1;
    }
    proof {
        lemma_find_name_at(ns@, tok@, i as int);
    }
    i
}

/// Routes the cursor through the handler tree and binds the selected
/// leaf's fields, returning the bound command or the first indexed error.
pub fn dispatch(h: &Handler, cursor: &[char], ws: &[char], index: usize, cfg: BindConfig) -> (r:
    Result<Bound, InternalError>)
    requires
        handler_wf(*h),
        is_trimmed(cursor@, ws@),
        index + cursor@.len() + spare_slots(*h) <= usize::MAX,
    ensures
        (match r {
            Ok(b) => route_spec(*h, opt_of(cursor@), ws@, index as int, cfg.advance_index_on_default)
                == Ok::<_, InternalErrorModel>(b@),
            Err(e) => route_spec(
                *h,
                opt_of(cursor@),
                ws@,
                index as int,
                cfg.advance_index_on_default,
            ) == Err::<BoundModel, _>(e@),
        }),
    decreases *h,
{
    match h {
        Handler::Leaf(id, fs) => {
            match bind_fields(fs, cursor, ws, index, cfg) {
                Ok((record, idx)) => Ok(Bound { command: *id, record, index: idx }),
                Err(e) => Err(e),
            }
        },
        Handler::Scope(t) => {
            if cursor.len() == 0 {
                match &t.fallback {
                    Some(fb) => {
                        proof {
                            assert(spare_slots(**fb) <= table_spare(*t));
                        }
                        dispatch(fb, cursor, ws, index, cfg)
                    },
                    None => Err(
                        InternalError { index, variant: ErrorType::Expected(ArgType::Scope) },
                    ),
                }
            } else {
                let pi = find_prefix_exec(&t.prefixes, cursor);
                if pi < t.prefixes.len() {
                    let lit_len = t.prefixes[pi].literal.len();
                    assert(lit_len <= cursor@.len());
                    let rem = slice_subrange(cursor, lit_len, cursor.len());
                    assert(rem@ =~= cursor@.skip(lit_len as int));
                    let rem2 = trim_chars(rem, ws);
                    proof {
                        lemma_trim_props(rem@, ws@);
                        lemma_prefixes_spare(t.prefixes@, pi as int);
                    }
                    dispatch(&t.prefixes[pi].handler, rem2, ws, index, cfg)
                } else {
                    proof {
                        lemma_trim_trimmed(cursor@, ws@);
                    }
                    match next_token(cursor, ws) {
                        None => {
                            proof {
                                assert(false);
                            }
                            Err(
                                InternalError {
                                    index,
                                    variant: ErrorType::Expected(ArgType::Scope),
                                },
                            )
                        },
                        Some((tok, rest)) => {
                            proof {
                                lemma_token_rest_shrinks(cursor@, ws@);
                                match token_rest(cursor@, ws@) {
                                    Some(rs) => {
                                        lemma_trim_props(cursor@.skip(
                                            crate::tokens::token_len(cursor@, ws@) as int + 1,
                                        ), ws@);
                                    },
                                    None => {},
                                }
                            }
                            assert(is_trimmed(rest@, ws@));
                            assert(rest@.len() < cursor@.len());
                            let ni = find_name_exec(&t.names, tok);
                            if ni < t.names.len() {
                                proof {
                                    lemma_names_spare(t.names@, ni as int);
                                }
                                dispatch(&t.names[ni].handler, rest, ws, index + 1, cfg)
                            } else {
                                match &t.fallback {
                                    Some(fb) => {
                                        proof {
                                            assert(spare_slots(**fb) <= table_spare(*t));
                                        }
                                        dispatch(fb, cursor, ws, index, cfg)
                                    },
                                    None => Err(
                                        InternalError {
                                            index,
                                            variant: ErrorType::Parse(
                                                ParseErr {
                                                    arg: chars_to_string(tok),
                                                    parse_type: ArgType::Scope,
                                                },
                                            ),
                                        },
                                    ),
                                }
                            }
                        },
                    }
                }
            }
        },
    }
}

} // verus!
