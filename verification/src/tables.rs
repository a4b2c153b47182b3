//! The declaration tables: an ordered route table per alternatives handler
//! and an ordered field specification per record handler.  Both are built
//! once at startup and immutable thereafter; dispatch is a single
//! exhaustive match over the tags.

use vstd::prelude::*;
use crate::convert::FieldTy;
use crate::convert::Value;
use crate::convert::ValueModel;

verus! {

/// How a flag carries data: by presence alone, or with one following value
/// token.
#[derive(Debug, Clone, Copy, PartialEq, Eq, Structural)]
pub enum FlagKind {
    Trigger,
    Value(FieldTy),
}

/// One declared flag: its long name (the text matched after the `--`
/// marker) and its kind.
#[derive(Debug)]
pub struct FlagSpec {
    pub name: Vec<char>,
    pub kind: FlagKind,
}

/// One defaulted field: its type and the value substituted when the input
/// has run out.
#[derive(Debug)]
pub struct DefaultSpec {
    pub ty: FieldTy,
    pub value: Value,
}

/// The trailing group of a field specification.  The groups are mutually
/// exclusive per handler: plain positional fields may be followed by
/// defaulted fields, by flags, or by one trailing catch-all field, never by
/// a mixture.
#[derive(Debug)]
pub enum Extras {
    /// Nothing beyond the positional fields.
    Exact,
    /// Fields filled from input while it lasts, from their defaults after.
    Defaults(Vec<DefaultSpec>),
    /// Order-independent named flags, consumed after all positional fields.
    Flags(Vec<FlagSpec>),
    /// One field absorbing all remaining input verbatim; always last.
    Trail(FieldTy),
}

/// The ordered field specification of one leaf handler.
#[derive(Debug)]
pub struct FieldSpec {
    pub positionals: Vec<FieldTy>,
    pub extras: Extras,
}

/// A prefix route: a literal matched character-for-character against the
/// untokenized input, e.g. a sigil glued to the text behind it.
#[derive(Debug)]
pub struct PrefixEntry {
    pub literal: Vec<char>,
    pub handler: Handler,
}

/// A name route: a literal matched for exact equality against one
/// whitespace-delimited token.
#[derive(Debug)]
pub struct NameEntry {
    pub literal: Vec<char>,
    pub handler: Handler,
}

/// An ordered route table.  Declaration order is resolution priority;
/// prefixes are tried before names, and the fallback receives the raw,
/// untokenized remainder when neither matches.
#[derive(Debug)]
pub struct RouteTable {
    pub prefixes: Vec<PrefixEntry>,
    pub names: Vec<NameEntry>,
    pub fallback: Option<Box<Handler>>,
}

/// A handler: an inner router, or a leaf binder tagged with the command
/// identifier under which the executor selects the application action.
#[derive(Debug)]
pub enum Handler {
    Scope(RouteTable),
    Leaf(usize, FieldSpec),
}

/// Whether a default value fits its declared field type.
pub open spec fn default_fits(d: DefaultSpec) -> bool {
    match d.ty {
        FieldTy::Int => d.value@ is Int,
        FieldTy::Str => d.value@ is Str,
        FieldTy::Bool => d.value@ is Bool,
    }
}

impl FieldSpec {
    /// The builder contract for one leaf: default values match their
    /// declared types, and flag names are distinct.
    pub open spec fn wf(&self) -> bool {
        match self.extras {
            Extras::Exact => true,
            Extras::Defaults(ds) => forall|i: int|
                0 <= i < ds@.len() ==> default_fits(#[trigger] ds@[i]),
            Extras::Flags(fl) => forall|i: int, j: int|
                0 <= i < j < fl@.len() ==> (#[trigger] fl@[i]).name@ != (#[trigger] fl@[j]).name@,
            Extras::Trail(_) => true,
        }
    }

    /// How many dispatch-index slots binding this specification may use
    /// beyond the tokens it consumes: one per defaulted field.
    pub open spec fn spare_slots(&self) -> nat {
        match self.extras {
            Extras::Defaults(ds) => ds@.len(),
            _ => 0,
        }
    }
}

/// The builder contract for a handler tree: route literals are non-empty
/// and unique across their table, and every sub-handler is well formed.
pub open spec fn handler_wf(h: Handler) -> bool
    decreases h,
{
    match h {
        Handler::Leaf(_, fs) => fs.wf(),
        Handler::Scope(t) => {
            &&& forall|i: int|
                0 <= i < t.prefixes@.len() ==> (#[trigger] t.prefixes@[i]).literal@.len() > 0
            &&& forall|i: int|
                0 <= i < t.names@.len() ==> (#[trigger] t.names@[i]).literal@.len() > 0
            &&& forall|i: int, j: int|
                0 <= i < j < t.prefixes@.len() ==> (#[trigger] t.prefixes@[i]).literal@ != (
                #[trigger] t.prefixes@[j]).literal@
            &&& forall|i: int, j: int|
                0 <= i < j < t.names@.len() ==> (#[trigger] t.names@[i]).literal@ != (
                #[trigger] t.names@[j]).literal@
            &&& forall|i: int, j: int|
                0 <= i < t.prefixes@.len() && 0 <= j < t.names@.len() ==> (
                #[trigger] t.prefixes@[i]).literal@ != (#[trigger] t.names@[j]).literal@
            &&& forall|i: int|
                0 <= i < t.prefixes@.len() ==> handler_wf((#[trigger] t.prefixes@[i]).handler)
            &&& forall|i: int|
                0 <= i < t.names@.len() ==> handler_wf((#[trigger] t.names@[i]).handler)
            &&& (match t.fallback {
                Some(fb) => handler_wf(*fb),
                None => true,
            })
        },
    }
}

/// An upper bound, over the whole tree, on the dispatch-index slots a
/// dispatch may use beyond the tokens it consumes.
pub open spec fn spare_slots(h: Handler) -> nat
    decreases h,
{
    match h {
        Handler::Leaf(_, fs) => fs.spare_slots(),
        Handler::Scope(t) => table_spare(t),
    }
}

/// See `spare_slots`.
pub open spec fn table_spare(t: RouteTable) -> nat
    decreases t,
{
    prefixes_spare(t.prefixes@) + names_spare(t.names@) + (match t.fallback {
        Some(fb) => spare_slots(*fb),
        None => 0,
    })
}

/// See `spare_slots`.
pub open spec fn prefixes_spare(s: Seq<PrefixEntry>) -> nat
    decreases s,
{
    if s.len() == 0 {
        0
    } else {
        spare_slots(s[0].handler) + prefixes_spare(s.skip(1))
    }
}

/// See `spare_slots`.
pub open spec fn names_spare(s: Seq<NameEntry>) -> nat
    decreases s,
{
    if s.len() == 0 {
        0
    } else {
        spare_slots(s[0].handler) + names_spare(s.skip(1))
    }
}

fn default_fits_exec(d: &DefaultSpec) -> (r: bool)
    ensures
        r == default_fits(*d),
{
    match d.ty {
        FieldTy::Int => (match &d.value {
            Value::Int(_) => true,
            _ => false,
        }),
        FieldTy::Str => (match &d.value {
            Value::Str(_) => true,
            _ => false,
        }),
        FieldTy::Bool => (match &d.value {
            Value::Bool(_) => true,
            _ => false,
        }),
    }
}

fn defaults_fit(ds: &Vec<DefaultSpec>) -> (r: bool)
    ensures
        r == (forall|i: int| 0 <= i < ds@.len() ==> default_fits(#[trigger] ds@[i])),
{
    let n = ds.len();
    let mut i: usize = 0;
    while i < n
        invariant
            0 <= i <= n,
            n == ds@.len(),
            forall|j: int| 0 <= j < i ==> default_fits(#[trigger] ds@[j]),
        decreases n - i,
    {
        if !default_fits_exec(&ds[i]) {
            assert(!default_fits(ds@[i as int]));
            return false;
        }
        i += 1;
    }
    true
}

fn flags_distinct(fl: &Vec<FlagSpec>) -> (r: bool)
    ensures
        r == (forall|i: int, j: int|
            0 <= i < j < fl@.len() ==> (#[trigger] fl@[i]).name@ != (#[trigger] fl@[j]).name@),
{
    let n = fl.len();
    let mut i: usize = 0;
    while i < n
        invariant
            0 <= i <= n,
            n == fl@.len(),
            forall|a: int, b: int|
                0 <= a < b < n && a < i ==> (#[trigger] fl@[a]).name@ != (#[trigger] fl@[b]).name@,
        decreases n - i,
    {
        let mut j = i + 1;
        while j < n
            invariant
                i < n,
                i + 1 <= j <= n,
                n == fl@.len(),
                forall|b: int| i < b < j ==> fl@[i as int].name@ != (#[trigger] fl@[b]).name@,
            decreases n - j,
        {
            if crate::tokens::slice_eq(fl[i].name.as_slice(), fl[j].name.as_slice()) {
                assert(fl@[i as int].name@ == fl@[j as int].name@);
                return false;
            }
            j += 1;
        }
        i += 1;
    }
    true
}

fn field_spec_ok(fs: &FieldSpec) -> (r: bool)
    ensures
        r == fs.wf(),
{
    match &fs.extras {
        Extras::Exact => true,
        Extras::Trail(_) => true,
        Extras::Defaults(ds) => defaults_fit(ds),
        Extras::Flags(fl) => flags_distinct(fl),
    }
}

fn prefixes_nonempty(ps: &Vec<PrefixEntry>) -> (r: bool)
    ensures
        r == (forall|i: int| 0 <= i < ps@.len() ==> (#[trigger] ps@[i]).literal@.len() > 0),
{
    let n = ps.len();
    let mut i: usize = 0;
    while i < n
        invariant
            0 <= i <= n,
            n == ps@.len(),
            forall|j: int| 0 <= j < i ==> (#[trigger] ps@[j]).literal@.len() > 0,
        decreases n - i,
    {
        if ps[i].literal.len() == 0 {
            assert(ps@[i as int].literal@.len() == 0);
            return false;
        }
        i += 1;
    }
    true
}

fn names_nonempty(ns: &Vec<NameEntry>) -> (r: bool)
    ensures
        r == (forall|i: int| 0 <= i < ns@.len() ==> (#[trigger] ns@[i]).literal@.len() > 0),
{
    let n = ns.len();
    let mut i: usize = 0;
    while i < n
        invariant
            0 <= i <= n,
            n == ns@.len(),
            forall|j: int| 0 <= j < i ==> (#[trigger] ns@[j]).literal@.len() > 0,
        decreases n - i,
    {
        if ns[i].literal.len() == 0 {
            assert(ns@[i as int].literal@.len() == 0);
            return false;
        }
        i += 1;
    }
    true
}

fn prefixes_distinct(ps: &Vec<PrefixEntry>) -> (r: bool)
    ensures
        r == (forall|i: int, j: int|
            0 <= i < j < ps@.len() ==> (#[trigger] ps@[i]).literal@ != (
            #[trigger] ps@[j]).literal@),
{
    let n = ps.len();
    let mut i: usize = 0;
    while i < n
        invariant
            0 <= i <= n,
            n == ps@.len(),
            forall|a: int, b: int|
                0 <= a < b < n && a < i ==> (#[trigger] ps@[a]).literal@ != (
                #[trigger] ps@[b]).literal@,
        decreases n - i,
    {
        let mut j = i + 1;
        while j < n
            invariant
                i < n,
                i + 1 <= j <= n,
                n == ps@.len(),
                forall|b: int| i < b < j ==> ps@[i as int].literal@ != (#[trigger] ps@[b]).literal@,
            decreases n - j,
        {
            if crate::tokens::slice_eq(ps[i].literal.as_slice(), ps[j].literal.as_slice()) {
                assert(ps@[i as int].literal@ == ps@[j as int].literal@);
                return false;
            }
            j += 1;
        }
        i += 1;
    }
    true
}

fn names_distinct(ns: &Vec<NameEntry>) -> (r: bool)
    ensures
        r == (forall|i: int, j: int|
            0 <= i < j < ns@.len() ==> (#[trigger] ns@[i]).literal@ != (
            #[trigger] ns@[j]).literal@),
{
    let n = ns.len();
    let mut i: usize = 0;
    while i < n
        invariant
            0 <= i <= n,
            n == ns@.len(),
            forall|a: int, b: int|
                0 <= a < b < n && a < i ==> (#[trigger] ns@[a]).literal@ != (
                #[trigger] ns@[b]).literal@,
        decreases n - i,
    {
        let mut j = i + 1;
        while j < n
            invariant
                i < n,
                i + 1 <= j <= n,
                n == ns@.len(),
                forall|b: int| i < b < j ==> ns@[i as int].literal@ != (#[trigger] ns@[b]).literal@,
            decreases n - j,
        {
            if crate::tokens::slice_eq(ns[i].literal.as_slice(), ns[j].literal.as_slice()) {
                assert(ns@[i as int].literal@ == ns@[j as int].literal@);
                return false;
            }
            j += 1;
        }
        i += 1;
    }
    true
}

fn cross_distinct(ps: &Vec<PrefixEntry>, ns: &Vec<NameEntry>) -> (r: bool)
    ensures
        r == (forall|i: int, j: int|
            0 <= i < ps@.len() && 0 <= j < ns@.len() ==> (#[trigger] ps@[i]).literal@ != (
            #[trigger] ns@[j]).literal@),
{
    let np = ps.len();
    let nn = ns.len();
    let mut i: usize = 0;
    while i < np
        invariant
            0 <= i <= np,
            np == ps@.len(),
            nn == ns@.len(),
            forall|a: int, b: int|
                0 <= a < i && 0 <= b < nn ==> (#[trigger] ps@[a]).literal@ != (
                #[trigger] ns@[b]).literal@,
        decreases np - i,
    {
        let mut j: usize = 0;
        while j < nn
            invariant
                i < np,
                0 <= j <= nn,
                np == ps@.len(),
                nn == ns@.len(),
                forall|b: int| 0 <= b < j ==> ps@[i as int].literal@ != (#[trigger] ns@[b]).literal@,
            decreases nn - j,
        {
            if crate::tokens::slice_eq(ps[i].literal.as_slice(), ns[j].literal.as_slice()) {
                assert(ps@[i as int].literal@ == ns@[j as int].literal@);
                return false;
            }
            j += 1;
        }
        i += 1;
    }
    true
}

/// Checks at run time that a hand-registered handler tree honours the
/// builder contract: route literals non-empty and unique across their
/// table, default values matching their types, flag names distinct, and
/// the same throughout every nested table.  An application registers its
/// tables once at startup and can reject a bad declaration here, as a
/// generated table builder would have rejected it when building.
pub fn well_formed(h: &Handler) -> (r: bool)
    ensures
        r == handler_wf(*h),
    decreases *h,
{
    match h {
        Handler::Leaf(_, fs) => field_spec_ok(fs),
        Handler::Scope(t) => {
            if !prefixes_nonempty(&t.prefixes) {
                return false;
            }
            if !names_nonempty(&t.names) {
                return false;
            }
            if !prefixes_distinct(&t.prefixes) {
                return false;
            }
            if !names_distinct(&t.names) {
                return false;
            }
            if !cross_distinct(&t.prefixes, &t.names) {
                return false;
            }
            let np = t.prefixes.len();
            let mut i: usize = 0;
            while i < np
                invariant
                    *h == Handler::Scope(*t),
                    0 <= i <= np,
                    np == t.prefixes@.len(),
                    forall|a: int| 0 <= a < i ==> handler_wf((#[trigger] t.prefixes@[a]).handler),
                decreases np - i,
            {
                proof {
                    assert(decreases_to!(*h => (*h)->Scope_0.prefixes@[i as int].handler));
                    assert((*h)->Scope_0.prefixes@[i as int].handler == t.prefixes@[i as int].handler);
                }
                if !well_formed(&t.prefixes[i].handler) {
                    assert(!handler_wf(t.prefixes@[i as int].handler));
                    return false;
                }
                i += 1;
            }
            let nn = t.names.len();
            let mut j: usize = 0;
            while j < nn
                invariant
                    *h == Handler::Scope(*t),
                    0 <= j <= nn,
                    nn == t.names@.len(),
                    forall|a: int| 0 <= a < j ==> handler_wf((#[trigger] t.names@[a]).handler),
                decreases nn - j,
            {
                proof {
                    assert(decreases_to!(*h => (*h)->Scope_0.names@[j as int].handler));
                    assert((*h)->Scope_0.names@[j as int].handler == t.names@[j as int].handler);
                }
                if !well_formed(&t.names[j].handler) {
                    assert(!handler_wf(t.names@[j as int].handler));
                    return false;
                }
                j += 1;
            }
            match &t.fallback {
                Some(fb) => {
                    if !well_formed(fb) {
                        return false;
                    }
                },
                None => {},
            }
            true
        },
    }
}

/// Each prefix entry's handler contributes to the table bound.
pub proof fn lemma_prefixes_spare(s: Seq<PrefixEntry>, i: int)
    requires
        0 <= i < s.len(),
    ensures
        spare_slots(s[i].handler) <= prefixes_spare(s),
    decreases i,
{
    if i == 0 {
    } else {
        lemma_prefixes_spare(s.skip(1), i - 1);
        assert(s.skip(1)[i - 1] == s[i]);
    }
}

/// Each name entry's handler contributes to the table bound.
pub proof fn lemma_names_spare(s: Seq<NameEntry>, i: int)
    requires
        0 <= i < s.len(),
    ensures
        spare_slots(s[i].handler) <= names_spare(s),
    decreases i,
{
    if i == 0 {
    } else {
        lemma_names_spare(s.skip(1), i - 1);
        assert(s.skip(1)[i - 1] == s[i]);
    }
}

} // verus!
