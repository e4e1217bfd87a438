//! The prim-definition reader of the minimal USDA loader.
//!
//! It walks the lines of a layer's text and records, for each `def`, `over`
//! or `class` block, the prim's path, specifier, attribute names, time-sample
//! texts, list-op metadata (references, inherits, specializes, payloads,
//! relationship targets, connections), child order and variant metadata.
//! Braces are tracked on a stack so that prim paths nest and attributes
//! inside variant branches are routed to the prim that owns the variant set.
//!
//! The reader is specified as a state machine: [`read_defs`] runs
//! [`step_spec`] over the lines from the first one, where one step reads a
//! line (and any lines its block swallows). A step is `None` exactly when
//! the reader would slice an inverted bracket span, so [`parse_prim_defs`]
//! requires that no step on the way is `None`.

use vstd::prelude::*;

use crate::doc::Specifier;
use crate::text::{join_with, views};
use crate::text::{
    contains_sub, find_char, rfind_char, split_char, starts_with_char, strip_prefix, trim, trim_end_char,
};
use crate::usda::{
    ReferenceSpec, TargetOp, any_attr, connection_line, connection_line_ok, line_body, named_rel_line,
    named_rel_line_ok, pair_views, parse_any_attr, parse_connection_line, parse_named_rel_line,
    parse_prim_name, parse_rel_targets_line, parse_reorder_name_children, path_list_line,
    path_list_line_ok, prim_name, ref_views, rel_targets_head, reorder_name_children, reorder_rhs,
    inherits_head, parse_inherits_line, parse_payloads_line, parse_references_line,
    parse_specializes_line, parse_variant_selections_line, parse_variant_set_names_line,
    payloads_line, payloads_line_ok, references_line, references_line_ok, set_names_rhs,
    specializes_head, variant_selections_line, variant_selections_line_ok, variant_set_names_line,
    parse_time_samples_attr, parse_variant_branch_name, parse_variant_set_start,
    split_time_sample_entry, variant_branch_name, variant_set_start, string_list_ok, time_sample_texts, time_samples_attr,
};
use crate::text::texts;

verus! {

// ---------------------------------------------------------------------------
// Records and their views.
// ---------------------------------------------------------------------------

/// A list-op over references or payloads: an explicit list, if one was
/// given, and the items to prepend and append.
#[derive(Debug)]
pub struct ReferencesDef {
    /// The explicit list (`references = ...`), if any.
    pub explicit: Option<Vec<ReferenceSpec>>,
    /// Items of `prepend` lines, in order.
    pub prepend: Vec<ReferenceSpec>,
    /// Items of `add` / `append` lines, in order.
    pub append: Vec<ReferenceSpec>,
}

/// A list-op over prim paths (inherits, specializes, relationship targets).
#[derive(Debug)]
pub struct PathsDef {
    /// The explicit list, if any.
    pub explicit: Option<Vec<String>>,
    /// Items of `prepend` lines, in order.
    pub prepend: Vec<String>,
    /// Items of `add` / `append` lines, in order.
    pub append: Vec<String>,
}

/// The view of a reference list-op.
pub struct ReferencesDefView {
    pub explicit: Option<Seq<(Seq<char>, Seq<char>)>>,
    pub prepend: Seq<(Seq<char>, Seq<char>)>,
    pub append: Seq<(Seq<char>, Seq<char>)>,
}

/// The view of a path list-op.
pub struct PathsDefView {
    pub explicit: Option<Seq<Seq<char>>>,
    pub prepend: Seq<Seq<char>>,
    pub append: Seq<Seq<char>>,
}

impl View for ReferencesDef {
    type V = ReferencesDefView;

    open spec fn view(&self) -> ReferencesDefView {
        ReferencesDefView {
            explicit: match self.explicit {
                Some(v) => Some(ref_views(v@)),
                None => None,
            },
            prepend: ref_views(self.prepend@),
            append: ref_views(self.append@),
        }
    }
}

impl View for PathsDef {
    type V = PathsDefView;

    open spec fn view(&self) -> PathsDefView {
        PathsDefView {
            explicit: match self.explicit {
                Some(v) => Some(texts(v@)),
                None => None,
            },
            prepend: texts(self.prepend@),
            append: texts(self.append@),
        }
    }
}

/// An empty reference list-op.
pub open spec fn no_references() -> ReferencesDefView {
    ReferencesDefView { explicit: None, prepend: Seq::empty(), append: Seq::empty() }
}

/// An empty path list-op.
pub open spec fn no_paths() -> PathsDefView {
    PathsDefView { explicit: None, prepend: Seq::empty(), append: Seq::empty() }
}

/// A reference list-op after one line: an explicit line replaces the list,
/// the others extend their side.
pub open spec fn apply_references(d: ReferencesDefView, op: crate::usda::RefOp, items: Seq<
    (Seq<char>, Seq<char>),
>) -> ReferencesDefView {
    match op {
        crate::usda::RefOp::Explicit => ReferencesDefView { explicit: Some(items), ..d },
        crate::usda::RefOp::Prepend => ReferencesDefView { prepend: d.prepend + items, ..d },
        crate::usda::RefOp::Append => ReferencesDefView { append: d.append + items, ..d },
    }
}

/// A path list-op after an inherits or specializes line.
pub open spec fn apply_inherits(d: PathsDefView, op: crate::usda::InheritOp, items: Seq<Seq<char>>) -> PathsDefView {
    match op {
        crate::usda::InheritOp::Explicit => PathsDefView { explicit: Some(items), ..d },
        crate::usda::InheritOp::Prepend => PathsDefView { prepend: d.prepend + items, ..d },
        crate::usda::InheritOp::Append => PathsDefView { append: d.append + items, ..d },
    }
}

/// A path list-op after a relationship-targets line.
pub open spec fn apply_targets(d: PathsDefView, op: TargetOp, items: Seq<Seq<char>>) -> PathsDefView {
    match op {
        TargetOp::Explicit => PathsDefView { explicit: Some(items), ..d },
        TargetOp::Prepend => PathsDefView { prepend: d.prepend + items, ..d },
        TargetOp::Append => PathsDefView { append: d.append + items, ..d },
    }
}

impl ReferencesDef {
    fn new() -> (r: Self)
        ensures
            r@ == no_references(),
    {
        let r = ReferencesDef { explicit: None, prepend: Vec::new(), append: Vec::new() };
        proof {
            assert(r@.prepend =~= Seq::<(Seq<char>, Seq<char>)>::empty());
            assert(r@.append =~= Seq::<(Seq<char>, Seq<char>)>::empty());
        }
        r
    }

    fn apply(&mut self, op: crate::usda::RefOp, items: Vec<ReferenceSpec>)
        ensures
            final(self)@ == apply_references(old(self)@, op, ref_views(items@)),
    {
        let mut items = items;
        let ghost iv = ref_views(items@);
        match op {
            crate::usda::RefOp::Explicit => {
                self.explicit = Some(items);
            },
            crate::usda::RefOp::Prepend => {
                let ghost before = self.prepend@;
                self.prepend.append(&mut items);
                proof {
                    assert(ref_views(self.prepend@) =~= ref_views(before) + iv);
                }
            },
            crate::usda::RefOp::Append => {
                let ghost before = self.append@;
                self.append.append(&mut items);
                proof {
                    assert(ref_views(self.append@) =~= ref_views(before) + iv);
                }
            },
        }
    }

    fn is_empty(&self) -> (r: bool)
        ensures
            r == (self@.explicit is None && self@.prepend.len() == 0 && self@.append.len() == 0),
    {
        self.explicit.is_none() && self.prepend.len() == 0 && self.append.len() == 0
    }
}

impl PathsDef {
    fn new() -> (r: Self)
        ensures
            r@ == no_paths(),
    {
        let r = PathsDef { explicit: None, prepend: Vec::new(), append: Vec::new() };
        proof {
            assert(r@.prepend =~= Seq::<Seq<char>>::empty());
            assert(r@.append =~= Seq::<Seq<char>>::empty());
        }
        r
    }

    fn apply_inherits(&mut self, op: crate::usda::InheritOp, items: Vec<String>)
        ensures
            final(self)@ == apply_inherits(old(self)@, op, texts(items@)),
    {
        let mut items = items;
        let ghost iv = texts(items@);
        match op {
            crate::usda::InheritOp::Explicit => {
                self.explicit = Some(items);
            },
            crate::usda::InheritOp::Prepend => {
                let ghost before = self.prepend@;
                self.prepend.append(&mut items);
                proof {
                    assert(texts(self.prepend@) =~= texts(before) + iv);
                }
            },
            crate::usda::InheritOp::Append => {
                let ghost before = self.append@;
                self.append.append(&mut items);
                proof {
                    assert(texts(self.append@) =~= texts(before) + iv);
                }
            },
        }
    }

    fn apply_targets(&mut self, op: TargetOp, items: Vec<String>)
        ensures
            final(self)@ == apply_targets(old(self)@, op, texts(items@)),
    {
        let mut items = items;
        let ghost iv = texts(items@);
        match op {
            TargetOp::Explicit => {
                self.explicit = Some(items);
            },
            TargetOp::Prepend => {
                let ghost before = self.prepend@;
                self.prepend.append(&mut items);
                proof {
                    assert(texts(self.prepend@) =~= texts(before) + iv);
                }
            },
            TargetOp::Append => {
                let ghost before = self.append@;
                self.append.append(&mut items);
                proof {
                    assert(texts(self.append@) =~= texts(before) + iv);
                }
            },
        }
    }

    fn is_empty(&self) -> (r: bool)
        ensures
            r == (self@.explicit is None && self@.prepend.len() == 0 && self@.append.len() == 0),
    {
        self.explicit.is_none() && self.prepend.len() == 0 && self.append.len() == 0
    }
}

// ---------------------------------------------------------------------------
// Scopes and braces.
// ---------------------------------------------------------------------------

/// What an open `{` stands for.
#[derive(Debug)]
pub enum BraceKind {
    /// A prim block.
    Prim,
    /// A `variantSet "name" = {` block.
    VariantSet(String),
    /// A variant branch `"name" {` inside a variant set: (set, branch).
    VariantBranch(String, String),
    /// A variant branch whose `{` closed multi-line branch metadata; it counts
    /// for the full variant context but not for the current one.
    VariantBranchMeta(String, String),
    /// Any other block.
    Other,
}

/// The view of a brace kind.
pub enum BraceView {
    Prim,
    VariantSet(Seq<char>),
    VariantBranch(Seq<char>, Seq<char>),
    VariantBranchMeta(Seq<char>, Seq<char>),
    Other,
}

impl View for BraceKind {
    type V = BraceView;

    open spec fn view(&self) -> BraceView {
        match self {
            BraceKind::Prim => BraceView::Prim,
            BraceKind::VariantSet(s) => BraceView::VariantSet(s@),
            BraceKind::VariantBranch(s, b) => BraceView::VariantBranch(s@, b@),
            BraceKind::VariantBranchMeta(s, b) => BraceView::VariantBranchMeta(s@, b@),
            BraceKind::Other => BraceView::Other,
        }
    }
}

/// The views of a brace stack.
pub open spec fn brace_views(v: Seq<BraceKind>) -> Seq<BraceView> {
    v.map_values(|b: BraceKind| b@)
}

/// `/` followed by the scope names joined with `/`.
pub open spec fn slash_join(scope: Seq<Seq<char>>) -> Seq<char> {
    seq!['/'] + join_with(scope, '/')
}

/// The path of the prim owning the current scope; empty at the top level.
pub open spec fn owning_prim_path(scope: Seq<Seq<char>>) -> Seq<char> {
    if scope.len() == 0 {
        Seq::empty()
    } else {
        slash_join(scope)
    }
}

/// The innermost variant branch (not one opened by branch metadata) on the
/// brace stack: (set, branch).
pub open spec fn current_variant_context(braces: Seq<BraceView>) -> Option<(Seq<char>, Seq<char>)>
    decreases braces.len(),
{
    if braces.len() == 0 {
        None
    } else {
        match braces.last() {
            BraceView::VariantBranch(s, b) => Some((s, b)),
            _ => current_variant_context(braces.drop_last()),
        }
    }
}

/// How many prim braces lie above the innermost variant branch; zero when
/// there is none.
pub open spec fn prim_depth_in_variant(braces: Seq<BraceView>) -> nat
    decreases braces.len(),
{
    if braces.len() == 0 {
        0
    } else {
        match braces.last() {
            BraceView::VariantBranch(_, _) => 0,
            BraceView::Prim => if current_variant_context(braces.drop_last()) is Some {
                prim_depth_in_variant(braces.drop_last()) + 1
            } else {
                0
            },
            _ => prim_depth_in_variant(braces.drop_last()),
        }
    }
}

/// Every variant branch on the brace stack, outermost first, with the path of
/// the prim that owns it (from the prim braces below it), and the number of
/// prim braces counted (at most the scope depth).
pub open spec fn variant_context_walk(braces: Seq<BraceView>, scope: Seq<Seq<char>>) -> (
    Seq<(Seq<char>, Seq<char>, Seq<char>)>,
    nat,
)
    decreases braces.len(),
{
    if braces.len() == 0 {
        (Seq::empty(), 0)
    } else {
        let (ctx, count) = variant_context_walk(braces.drop_last(), scope);
        match braces.last() {
            BraceView::Prim => if count < scope.len() {
                (ctx, count + 1)
            } else {
                (ctx, count)
            },
            BraceView::VariantBranch(s, b) => (
                ctx.push((owning_prim_path(scope.take(count as int)), s, b)),
                count,
            ),
            BraceView::VariantBranchMeta(s, b) => (
                ctx.push((owning_prim_path(scope.take(count as int)), s, b)),
                count,
            ),
            _ => (ctx, count),
        }
    }
}

/// The full variant context of the brace stack.
pub open spec fn full_variant_context(braces: Seq<BraceView>, scope: Seq<Seq<char>>) -> Seq<
    (Seq<char>, Seq<char>, Seq<char>),
> {
    variant_context_walk(braces, scope).0
}

// ---------------------------------------------------------------------------
// Prim records.
// ---------------------------------------------------------------------------

/// List-op metadata authored on a variant branch header, such as
/// `"full" (add references = </Rig>) {`.
#[derive(Debug)]
pub struct VariantBranchArc {
    /// The variant set.
    pub set_name: String,
    /// The branch.
    pub branch_name: String,
    /// References authored on the branch.
    pub references: ReferencesDef,
    /// Inherits authored on the branch.
    pub inherits: PathsDef,
    /// Specializes authored on the branch.
    pub specializes: PathsDef,
    /// Payloads authored on the branch.
    pub payloads: ReferencesDef,
    /// Variant selections authored on the branch.
    pub variant_selections: Vec<(String, String)>,
}

/// The view of a variant branch arc.
pub struct VariantBranchArcView {
    pub set_name: Seq<char>,
    pub branch_name: Seq<char>,
    pub references: ReferencesDefView,
    pub inherits: PathsDefView,
    pub specializes: PathsDefView,
    pub payloads: ReferencesDefView,
    pub variant_selections: Seq<(Seq<char>, Seq<char>)>,
}

impl View for VariantBranchArc {
    type V = VariantBranchArcView;

    open spec fn view(&self) -> VariantBranchArcView {
        VariantBranchArcView {
            set_name: self.set_name@,
            branch_name: self.branch_name@,
            references: self.references@,
            inherits: self.inherits@,
            specializes: self.specializes@,
            payloads: self.payloads@,
            variant_selections: pair_views(self.variant_selections@),
        }
    }
}

/// A prim header seen but whose `{` has not come yet.
#[derive(Debug)]
pub struct PendingPrim {
    /// The prim name.
    pub name: String,
    /// `def`, `over` or `class`.
    pub specifier: Specifier,
    /// References from the header metadata.
    pub references: ReferencesDef,
    /// Inherits from the header metadata.
    pub inherits: PathsDef,
    /// Specializes from the header metadata.
    pub specializes: PathsDef,
    /// Payloads from the header metadata.
    pub payloads: ReferencesDef,
    /// Variant selections from the header metadata.
    pub variant_selections: Vec<(String, String)>,
    /// Variant set names from the header metadata.
    pub variant_set_names: Vec<String>,
}

/// The view of a pending prim.
pub struct PendingPrimView {
    pub name: Seq<char>,
    pub specifier: Specifier,
    pub references: ReferencesDefView,
    pub inherits: PathsDefView,
    pub specializes: PathsDefView,
    pub payloads: ReferencesDefView,
    pub variant_selections: Seq<(Seq<char>, Seq<char>)>,
    pub variant_set_names: Seq<Seq<char>>,
}

impl View for PendingPrim {
    type V = PendingPrimView;

    open spec fn view(&self) -> PendingPrimView {
        PendingPrimView {
            name: self.name@,
            specifier: self.specifier,
            references: self.references@,
            inherits: self.inherits@,
            specializes: self.specializes@,
            payloads: self.payloads@,
            variant_selections: pair_views(self.variant_selections@),
            variant_set_names: texts(self.variant_set_names@),
        }
    }
}

/// One prim block of a layer.
#[derive(Debug)]
pub struct PrimDef {
    /// The absolute prim path.
    pub path: String,
    /// `def`, `over` or `class`.
    pub specifier: Specifier,
    /// Names of the attributes (and relationships) declared on the prim.
    pub attrs: Vec<String>,
    /// Time samples per attribute: the trimmed texts before and after the
    /// `:` of each entry that has one, in file order. Reading the times as
    /// numbers (dropping entries whose time is not one) and ordering by time
    /// is left to the caller.
    pub time_samples: Vec<(String, Vec<(String, String)>)>,
    /// References.
    pub references: ReferencesDef,
    /// Inherits.
    pub inherits: PathsDef,
    /// Specializes.
    pub specializes: PathsDef,
    /// Payloads.
    pub payloads: ReferencesDef,
    /// `rel targets` list-op.
    pub targets: PathsDef,
    /// Whether a `custom rel targets` declaration was seen.
    pub declares_targets: bool,
    /// Named relationships: (name, operation, target paths).
    pub named_rels: Vec<(String, TargetOp, Vec<String>)>,
    /// Attribute connections: (attribute, operation, source paths).
    pub connections: Vec<(String, TargetOp, Vec<String>)>,
    /// Child order from `reorder nameChildren`.
    pub prim_order: Option<Vec<String>>,
    /// Variant selections.
    pub variant_selections: Vec<(String, String)>,
    /// Variant set names.
    pub variant_set_names: Vec<String>,
    /// For a prim inside a variant branch: (owning prim path, set, branch).
    pub variant_parent: Option<(String, String, String)>,
    /// All variant branches around the prim, outermost first: (owning prim
    /// path, set, branch).
    pub full_variant_context: Vec<(String, String, String)>,
    /// Attributes declared inside variant branches of this prim: (set,
    /// branch, attribute).
    pub variant_fields: Vec<(String, String, String)>,
    /// List-op metadata on the branch headers of this prim's variant sets.
    pub variant_branch_arcs: Vec<VariantBranchArc>,
}

/// The views of a list of time-sample blocks.
pub open spec fn sample_views(v: Seq<(String, Vec<(String, String)>)>) -> Seq<(Seq<char>, Seq<(Seq<char>, Seq<char>)>)> {
    v.map_values(|x: (String, Vec<(String, String)>)| (x.0@, pair_views(x.1@)))
}

/// The views of a list of named relationships or connections.
pub open spec fn rel_views(v: Seq<(String, TargetOp, Vec<String>)>) -> Seq<(Seq<char>, TargetOp, Seq<Seq<char>>)> {
    v.map_values(|x: (String, TargetOp, Vec<String>)| (x.0@, x.1, texts(x.2@)))
}

/// The views of a list of string triples.
pub open spec fn triple_views(v: Seq<(String, String, String)>) -> Seq<(Seq<char>, Seq<char>, Seq<char>)> {
    v.map_values(|x: (String, String, String)| (x.0@, x.1@, x.2@))
}

/// The views of a list of variant branch arcs.
pub open spec fn arc_views(v: Seq<VariantBranchArc>) -> Seq<VariantBranchArcView> {
    v.map_values(|a: VariantBranchArc| a@)
}

/// The view of a prim record.
pub struct PrimDefView {
    pub path: Seq<char>,
    pub specifier: Specifier,
    pub attrs: Seq<Seq<char>>,
    pub time_samples: Seq<(Seq<char>, Seq<(Seq<char>, Seq<char>)>)>,
    pub references: ReferencesDefView,
    pub inherits: PathsDefView,
    pub specializes: PathsDefView,
    pub payloads: ReferencesDefView,
    pub targets: PathsDefView,
    pub declares_targets: bool,
    pub named_rels: Seq<(Seq<char>, TargetOp, Seq<Seq<char>>)>,
    pub connections: Seq<(Seq<char>, TargetOp, Seq<Seq<char>>)>,
    pub prim_order: Option<Seq<Seq<char>>>,
    pub variant_selections: Seq<(Seq<char>, Seq<char>)>,
    pub variant_set_names: Seq<Seq<char>>,
    pub variant_parent: Option<(Seq<char>, Seq<char>, Seq<char>)>,
    pub full_variant_context: Seq<(Seq<char>, Seq<char>, Seq<char>)>,
    pub variant_fields: Seq<(Seq<char>, Seq<char>, Seq<char>)>,
    pub variant_branch_arcs: Seq<VariantBranchArcView>,
}

impl View for PrimDef {
    type V = PrimDefView;

    open spec fn view(&self) -> PrimDefView {
        PrimDefView {
            path: self.path@,
            specifier: self.specifier,
            attrs: texts(self.attrs@),
            time_samples: sample_views(self.time_samples@),
            references: self.references@,
            inherits: self.inherits@,
            specializes: self.specializes@,
            payloads: self.payloads@,
            targets: self.targets@,
            declares_targets: self.declares_targets,
            named_rels: rel_views(self.named_rels@),
            connections: rel_views(self.connections@),
            prim_order: match self.prim_order {
                Some(v) => Some(texts(v@)),
                None => None,
            },
            variant_selections: pair_views(self.variant_selections@),
            variant_set_names: texts(self.variant_set_names@),
            variant_parent: match self.variant_parent {
                Some(t) => Some((t.0@, t.1@, t.2@)),
                None => None,
            },
            full_variant_context: triple_views(self.full_variant_context@),
            variant_fields: triple_views(self.variant_fields@),
            variant_branch_arcs: arc_views(self.variant_branch_arcs@),
        }
    }
}

/// The views of a list of prim records.
pub open spec fn def_views(v: Seq<PrimDef>) -> Seq<PrimDefView> {
    v.map_values(|d: PrimDef| d@)
}

/// The index of the last record whose path is `path`.
pub open spec fn find_def(out: Seq<PrimDefView>, path: Seq<char>) -> Option<int>
    decreases out.len(),
{
    if out.len() == 0 {
        None
    } else if out.last().path == path {
        Some(out.len() - 1)
    } else {
        find_def(out.drop_last(), path)
    }
}

fn find_def_exec(out: &Vec<PrimDef>, path: &String) -> (r: Option<usize>)
    ensures
        match r {
            Some(k) => find_def(def_views(out@), path@) == Some(k as int) && k < out@.len(),
            None => find_def(def_views(out@), path@) is None,
        },
{
    let ghost dv = def_views(out@);
    let mut i = out.len();
    proof {
        assert(dv.take(i as int) =~= dv);
    }
    while i > 0
        invariant
            i <= out@.len(),
            dv == def_views(out@),
            find_def(dv, path@) == find_def(dv.take(i as int), path@),
        decreases i,
    {
        proof {
            assert(dv.take(i as int).last() == out@[i - 1]@);
            assert(dv.take(i as int).drop_last() =~= dv.take(i - 1));
        }
        if out[i - 1].path == *path {
            return Some(i - 1);
        }
        i = i - 1;
    }
    None
}

/// Whether `s` is one of the strings of `v`.
fn contains_string(v: &Vec<String>, s: &String) -> (r: bool)
    ensures
        r == texts(v@).contains(s@),
{
    let mut i: usize = 0;
    while i < v.len()
        invariant
            i <= v@.len(),
            forall|j: int| 0 <= j < i ==> v@[j]@ != s@,
        decreases v.len() - i,
    {
        if v[i] == *s {
            proof {
                assert(texts(v@)[i as int] == s@);
            }
            return true;
        }
        i = i + 1;
    }
    proof {
        if texts(v@).contains(s@) {
            let k = choose|k: int| 0 <= k < texts(v@).len() && texts(v@)[k] == s@;
            assert(v@[k]@ == s@);
        }
    }
    false
}

// ---------------------------------------------------------------------------
// Scope helpers, executable.
// ---------------------------------------------------------------------------

fn string_copy(s: &String) -> (r: String)
    ensures
        r@ == s@,
{
    s.clone()
}

/// `/` followed by the first `count` scope names joined with `/`.
fn join_scope(scope: &Vec<String>, count: usize) -> (r: String)
    requires
        count <= scope@.len(),
    ensures
        r@ == seq!['/'] + join_with(texts(scope@).take(count as int), '/'),
{
    let ghost sv = texts(scope@);
    let mut out: Vec<char> = Vec::new();
    out.push('/');
    let mut j: usize = 0;
    proof {
        assert(sv.take(0) =~= Seq::<Seq<char>>::empty());
        assert(out@ =~= seq!['/'] + join_with(sv.take(0), '/'));
    }
    while j < count
        invariant
            j <= count,
            count <= scope@.len(),
            sv == texts(scope@),
            out@ == seq!['/'] + join_with(sv.take(j as int), '/'),
        decreases count - j,
    {
        proof {
            assert(sv.take(j + 1).drop_last() =~= sv.take(j as int));
            assert(sv.take(j + 1).last() == scope@[j as int]@);
        }
        if j > 0 {
            out.push('/');
        }
        let seg = crate::text::chars_of(scope[j].as_str());
        let m = seg.len();
        let mut t: usize = 0;
        let ghost mid = out@;
        while t < m
            invariant
                t <= m,
                m == seg@.len(),
                out@ == mid + seg@.take(t as int),
            decreases m - t,
        {
            proof {
                assert(seg@.take(t + 1) =~= seg@.take(t as int).push(seg@[t as int]));
            }
            out.push(seg[t]);
            t = t + 1;
        }
        proof {
            assert(seg@.take(m as int) =~= seg@);
            if j == 0 {
                assert(sv.take(1) =~= seq![sv[0]]);
                assert(join_with(sv.take(1), '/') == sv[0]);
                assert(out@ =~= seq!['/'] + join_with(sv.take(1), '/'));
            } else {
                assert(out@ =~= seq!['/'] + join_with(sv.take(j + 1), '/'));
            }
        }
        j = j + 1;
    }
    crate::text::text_of(&out)
}

fn slash_join_exec(scope: &Vec<String>) -> (r: String)
    ensures
        r@ == slash_join(texts(scope@)),
{
    proof {
        assert(texts(scope@).take(scope@.len() as int) =~= texts(scope@));
    }
    join_scope(scope, scope.len())
}

fn owning_prefix_path(scope: &Vec<String>, count: usize) -> (r: String)
    requires
        count <= scope@.len(),
    ensures
        r@ == owning_prim_path(texts(scope@).take(count as int)),
{
    if count == 0 {
        String::new()
    } else {
        join_scope(scope, count)
    }
}

fn owning_prim_path_exec(scope: &Vec<String>) -> (r: String)
    ensures
        r@ == owning_prim_path(texts(scope@)),
{
    proof {
        assert(texts(scope@).take(scope@.len() as int) =~= texts(scope@));
    }
    owning_prefix_path(scope, scope.len())
}

fn current_variant_context_exec(braces: &Vec<BraceKind>) -> (r: Option<(String, String)>)
    ensures
        match r {
            Some((s, b)) => current_variant_context(brace_views(braces@)) == Some((s@, b@)),
            None => current_variant_context(brace_views(braces@)) is None,
        },
{
    let ghost bv = brace_views(braces@);
    let mut i = braces.len();
    proof {
        assert(bv.take(i as int) =~= bv);
    }
    while i > 0
        invariant
            i <= braces@.len(),
            bv == brace_views(braces@),
            current_variant_context(bv) == current_variant_context(bv.take(i as int)),
        decreases i,
    {
        proof {
            assert(bv.take(i as int).last() == braces@[i - 1]@);
            assert(bv.take(i as int).drop_last() =~= bv.take(i - 1));
        }
        match &braces[i - 1] {
            BraceKind::VariantBranch(s, b) => {
                return Some((string_copy(s), string_copy(b)));
            },
            _ => {},
        }
        i = i - 1;
    }
    None
}

proof fn lemma_depth_without_branch(bv: Seq<BraceView>)
    requires
        current_variant_context(bv) is None,
    ensures
        prim_depth_in_variant(bv) == 0,
    decreases bv.len(),
{
    if bv.len() > 0 {
        lemma_depth_without_branch(bv.drop_last());
    }
}

fn prim_depth_exec(braces: &Vec<BraceKind>) -> (r: usize)
    ensures
        r == prim_depth_in_variant(brace_views(braces@)),
{
    let ghost bv = brace_views(braces@);
    let n = braces.len();
    let mut i = n;
    let mut depth: usize = 0;
    proof {
        assert(bv.take(i as int) =~= bv);
        if current_variant_context(bv) is None {
            lemma_depth_without_branch(bv);
        }
    }
    while i > 0
        invariant
            i <= braces@.len(),
            n == braces@.len(),
            depth <= n - i,
            bv == brace_views(braces@),
            prim_depth_in_variant(bv) == if current_variant_context(bv.take(i as int)) is Some {
                prim_depth_in_variant(bv.take(i as int)) + depth
            } else {
                0
            },
        decreases i,
    {
        let ghost p = bv.take(i as int);
        proof {
            assert(p.last() == braces@[i - 1]@);
            assert(p.drop_last() =~= bv.take(i - 1));
        }
        match &braces[i - 1] {
            BraceKind::VariantBranch(_, _) => {
                return depth;
            },
            BraceKind::Prim => {
                depth = depth + 1;
            },
            _ => {},
        }
        i = i - 1;
    }
    proof {
        assert(bv.take(0) =~= Seq::<BraceView>::empty());
    }
    0
}

fn full_variant_context_exec(braces: &Vec<BraceKind>, scope: &Vec<String>) -> (r: Vec<(String, String, String)>)
    ensures
        triple_views(r@) == full_variant_context(brace_views(braces@), texts(scope@)),
{
    let ghost bv = brace_views(braces@);
    let ghost sv = texts(scope@);
    let mut ctx: Vec<(String, String, String)> = Vec::new();
    let mut count: usize = 0;
    let mut k: usize = 0;
    proof {
        assert(bv.take(0) =~= Seq::<BraceView>::empty());
        assert(triple_views(ctx@) =~= Seq::<(Seq<char>, Seq<char>, Seq<char>)>::empty());
    }
    while k < braces.len()
        invariant
            k <= braces@.len(),
            count <= scope@.len(),
            bv == brace_views(braces@),
            sv == texts(scope@),
            variant_context_walk(bv.take(k as int), sv) == (triple_views(ctx@), count as nat),
        decreases braces.len() - k,
    {
        proof {
            assert(bv.take(k + 1).drop_last() =~= bv.take(k as int));
            assert(bv.take(k + 1).last() == braces@[k as int]@);
        }
        match &braces[k] {
            BraceKind::Prim => {
                if count < scope.len() {
                    count = count + 1;
                }
            },
            BraceKind::VariantBranch(s, b) => {
                let owner = owning_prefix_path(scope, count);
                let ghost before = triple_views(ctx@);
                ctx.push((owner, string_copy(s), string_copy(b)));
                proof {
                    assert(triple_views(ctx@) =~= before.push((owner@, s@, b@)));
                }
            },
            BraceKind::VariantBranchMeta(s, b) => {
                let owner = owning_prefix_path(scope, count);
                let ghost before = triple_views(ctx@);
                ctx.push((owner, string_copy(s), string_copy(b)));
                proof {
                    assert(triple_views(ctx@) =~= before.push((owner@, s@, b@)));
                }
            },
            _ => {},
        }
        k = k + 1;
    }
    proof {
        assert(bv.take(k as int) =~= bv);
    }
    ctx
}

// ---------------------------------------------------------------------------
// Reader state.
// ---------------------------------------------------------------------------

/// The reader's state between lines.
#[derive(Debug)]
pub struct ParseState {
    out: Vec<PrimDef>,
    scope: Vec<String>,
    braces: Vec<BraceKind>,
    pending: Option<PendingPrim>,
}

/// The view of the reader's state: the prim records so far, the names of
/// the open prim blocks, the brace stack, and a header awaiting its `{`.
pub struct ParseStateView {
    pub out: Seq<PrimDefView>,
    pub scope: Seq<Seq<char>>,
    pub braces: Seq<BraceView>,
    pub pending: Option<PendingPrimView>,
}

impl View for ParseState {
    type V = ParseStateView;

    closed spec fn view(&self) -> ParseStateView {
        ParseStateView {
            out: def_views(self.out@),
            scope: texts(self.scope@),
            braces: brace_views(self.braces@),
            pending: match self.pending {
                Some(p) => Some(p@),
                None => None,
            },
        }
    }
}

/// The state before the first line.
pub open spec fn initial_state() -> ParseStateView {
    ParseStateView { out: Seq::empty(), scope: Seq::empty(), braces: Seq::empty(), pending: None }
}

/// The state with the record at `k` replaced.
pub open spec fn with_def(st: ParseStateView, k: int, d: PrimDefView) -> ParseStateView {
    ParseStateView { out: st.out.update(k, d), ..st }
}

/// The last record is the prim whose block is open.
pub open spec fn last_is_current(st: ParseStateView) -> bool {
    st.out.len() > 0 && st.scope.len() > 0 && st.out.last().path == slash_join(st.scope)
}

proof fn lemma_def_views_replace(v: Seq<PrimDef>, k: int, d: PrimDef)
    requires
        0 <= k < v.len(),
    ensures
        def_views(v.remove(k).insert(k, d)) == def_views(v).update(k, d@),
{
    assert(def_views(v.remove(k).insert(k, d)) =~= def_views(v).update(k, d@));
}

fn take_def(out: &mut Vec<PrimDef>, k: usize) -> (r: PrimDef)
    requires
        k < old(out)@.len(),
    ensures
        r == old(out)@[k as int],
        final(out)@ == old(out)@.remove(k as int),
{
    out.remove(k)
}

impl ParseState {
    fn new() -> (r: Self)
        ensures
            r@ == initial_state(),
    {
        let r = ParseState { out: Vec::new(), scope: Vec::new(), braces: Vec::new(), pending: None };
        proof {
            assert(r@.out =~= Seq::<PrimDefView>::empty());
            assert(r@.scope =~= Seq::<Seq<char>>::empty());
            assert(r@.braces =~= Seq::<BraceView>::empty());
        }
        r
    }

    fn last_is_current_exec(&self) -> (r: bool)
        ensures
            r == last_is_current(self@),
    {
        if self.out.len() == 0 || self.scope.len() == 0 {
            return false;
        }
        let current = slash_join_exec(&self.scope);
        let n = self.out.len();
        proof {
            assert(def_views(self.out@).last() == self.out@[n - 1]@);
        }
        self.out[n - 1].path == current
    }
}

// ---------------------------------------------------------------------------
// Lines.
// ---------------------------------------------------------------------------

/// A line without the `\r` of a `\r\n` ending.
pub open spec fn strip_cr(p: Seq<char>) -> Seq<char> {
    if p.len() > 0 && p.last() == '\r' {
        p.drop_last()
    } else {
        p
    }
}

/// The lines of a text as `str::lines` yields them: split at `\n`, a `\r`
/// before the `\n` dropped, and no empty line after a final `\n`.
pub open spec fn lines_of(text: Seq<char>) -> Seq<Seq<char>> {
    let ps = crate::text::split_char(text, '\n');
    let body = ps.drop_last().map_values(|p: Seq<char>| strip_cr(p));
    if ps.last().len() == 0 {
        body
    } else {
        body.push(ps.last())
    }
}

fn lines_vec(text: &str) -> (r: Vec<String>)
    ensures
        texts(r@) == lines_of(text@),
{
    let cs = crate::text::chars_of(text);
    let parts = crate::text::split_vec(&cs, '\n');
    let ghost ps = views(parts@);
    proof {
        crate::text::lemma_split_char_nonempty(cs@, '\n');
    }
    let n = parts.len();
    let mut out: Vec<String> = Vec::new();
    let mut i: usize = 0;
    while i + 1 < n
        invariant
            1 <= n,
            n == parts@.len(),
            i + 1 <= n,
            ps == views(parts@),
            texts(out@) == ps.take(i as int).map_values(|p: Seq<char>| strip_cr(p)),
        decreases n - i,
    {
        let p = &parts[i];
        let m = p.len();
        let line = if m > 0 && p[m - 1] == '\r' {
            crate::text::sub_vec(p, 0, m - 1)
        } else {
            crate::text::sub_vec(p, 0, m)
        };
        proof {
            assert(ps[i as int] == p@);
            if m > 0 && p@[m - 1] == '\r' {
                assert(line@ =~= p@.drop_last());
            } else {
                assert(line@ =~= p@);
            }
        }
        let ghost before = texts(out@);
        out.push(crate::text::text_of(&line));
        proof {
            assert(ps.take(i + 1).map_values(|p: Seq<char>| strip_cr(p)) =~= before.push(strip_cr(ps[i as int])));
            assert(texts(out@) =~= before.push(line@));
        }
        i = i + 1;
    }
    proof {
        assert(ps.take(i as int) =~= ps.drop_last());
        assert(ps.last() == parts@[n - 1]@);
    }
    if parts[n - 1].len() > 0 {
        let ghost before = texts(out@);
        out.push(crate::text::text_of(&parts[n - 1]));
        proof {
            assert(texts(out@) =~= before.push(ps.last()));
        }
    }
    out
}

// ---------------------------------------------------------------------------
// Attribute routing, prim headers and relationship lines.
// ---------------------------------------------------------------------------

/// Records the attribute a line declares: inside a variant branch (with no
/// prim block opened since) on the prim owning the variant set, as a variant
/// field; otherwise on the current prim, once.
pub open spec fn route_attr(st: ParseStateView, line: Seq<char>) -> ParseStateView {
    match any_attr(line) {
        None => st,
        Some(attr) => {
            let vctx = current_variant_context(st.braces);
            if vctx is Some && prim_depth_in_variant(st.braces) == 0 {
                let ctx = vctx->0;
                match find_def(st.out, owning_prim_path(st.scope)) {
                    Some(k) => with_def(
                        st,
                        k,
                        PrimDefView {
                            variant_fields: st.out[k].variant_fields.push((ctx.0, ctx.1, attr)),
                            ..st.out[k]
                        },
                    ),
                    None => st,
                }
            } else if last_is_current(st) && !st.out.last().attrs.contains(attr) {
                with_def(
                    st,
                    st.out.len() - 1,
                    PrimDefView { attrs: st.out.last().attrs.push(attr), ..st.out.last() },
                )
            } else {
                st
            }
        },
    }
}

fn route_attr_exec(st: &mut ParseState, line: &String)
    ensures
        final(st)@ == route_attr(old(st)@, line@),
{
    let attr = match parse_any_attr(line.as_str()) {
        Some(a) => a,
        None => return,
    };
    let vctx = current_variant_context_exec(&st.braces);
    let depth = prim_depth_exec(&st.braces);
    match vctx {
        Some((set, branch)) => {
            if depth == 0 {
                let parent_path = owning_prim_path_exec(&st.scope);
                match find_def_exec(&st.out, &parent_path) {
                    Some(k) => {
                        let ghost old_out = st.out@;
                        let mut d = take_def(&mut st.out, k);
                        let ghost dv = d@;
                        let ghost before = triple_views(d.variant_fields@);
                        let ghost entry = (set@, branch@, attr@);
                        d.variant_fields.push((set, branch, attr));
                        proof {
                            assert(triple_views(d.variant_fields@) =~= before.push(entry));
                            assert(d@ == PrimDefView {
                                variant_fields: dv.variant_fields.push(entry),
                                ..dv
                            });
                        }
                        st.out.insert(k, d);
                        proof {
                            lemma_def_views_replace(old_out, k as int, d);
                        }
                    },
                    None => {},
                }
                return;
            }
        },
        None => {},
    }
    if st.last_is_current_exec() {
        let n = st.out.len();
        let ghost old_out = st.out@;
        proof {
            assert(def_views(old_out).last() == old_out[n - 1]@);
        }
        if !contains_string(&st.out[n - 1].attrs, &attr) {
            let mut d = take_def(&mut st.out, n - 1);
            let ghost dv = d@;
            let ghost before = texts(d.attrs@);
            d.attrs.push(attr);
            proof {
                assert(texts(d.attrs@) =~= before.push(attr@));
                assert(d@ == PrimDefView { attrs: dv.attrs.push(attr@), ..dv });
            }
            st.out.insert(n - 1, d);
            proof {
                lemma_def_views_replace(old_out, n - 1, d);
            }
        }
    }
}

/// Whether `s` starts with `p`.
pub open spec fn starts_with_text(s: Seq<char>, p: Seq<char>) -> bool {
    strip_prefix(s, p) is Some
}

fn starts_with_exec(s: &String, p: &str) -> (r: bool)
    ensures
        r == starts_with_text(s@, p@),
{
    let cs = crate::text::chars_of(s.as_str());
    let pc = crate::text::chars_of(p);
    crate::text::strip_prefix_vec(&cs, &pc).is_some()
}

/// A `def`, `over` or `class` line.
pub open spec fn is_header(line: Seq<char>) -> bool {
    starts_with_text(line, "def "@) || starts_with_text(line, "over "@) || starts_with_text(
        line,
        "class "@,
    )
}

/// A prim header makes its prim pending, with empty metadata.
pub open spec fn header_step(st: ParseStateView, line: Seq<char>) -> ParseStateView {
    if is_header(line) && prim_name(line) is Some {
        let specifier = if starts_with_text(line, "def "@) {
            Specifier::Def
        } else if starts_with_text(line, "class "@) {
            Specifier::Class
        } else {
            Specifier::Over
        };
        ParseStateView {
            pending: Some(
                PendingPrimView {
                    name: prim_name(line)->0,
                    specifier,
                    references: no_references(),
                    inherits: no_paths(),
                    specializes: no_paths(),
                    payloads: no_references(),
                    variant_selections: Seq::empty(),
                    variant_set_names: Seq::empty(),
                },
            ),
            ..st
        }
    } else {
        st
    }
}

fn header_step_exec(st: &mut ParseState, line: &String)
    ensures
        final(st)@ == header_step(old(st)@, line@),
{
    let is_def = starts_with_exec(line, "def ");
    let is_over = starts_with_exec(line, "over ");
    let is_class = starts_with_exec(line, "class ");
    if !(is_def || is_over || is_class) {
        return;
    }
    let name = match parse_prim_name(line.as_str()) {
        Some(n) => n,
        None => return,
    };
    let specifier = if is_def {
        Specifier::Def
    } else if is_class {
        Specifier::Class
    } else {
        Specifier::Over
    };
    let p = PendingPrim {
        name,
        specifier,
        references: ReferencesDef::new(),
        inherits: PathsDef::new(),
        specializes: PathsDef::new(),
        payloads: ReferencesDef::new(),
        variant_selections: Vec::new(),
        variant_set_names: Vec::new(),
    };
    proof {
        assert(pair_views(p.variant_selections@) =~= Seq::<(Seq<char>, Seq<char>)>::empty());
        assert(texts(p.variant_set_names@) =~= Seq::<Seq<char>>::empty());
    }
    st.pending = Some(p);
}

/// A line that the relationship readers can read without slicing an
/// inverted bracket span.
pub open spec fn rel_line_ok(line: Seq<char>) -> bool {
    &&& path_list_line_ok(rel_targets_head(line_body(line)))
    &&& named_rel_line_ok(line)
    &&& connection_line_ok(line)
    &&& (reorder_rhs(line) matches Some(rhs) ==> string_list_ok(rhs))
}

/// A `custom rel targets` declaration marks the current prim.
pub open spec fn custom_targets_step(st: ParseStateView, line: Seq<char>) -> ParseStateView {
    if starts_with_text(line, "custom rel targets"@) && last_is_current(st) {
        with_def(st, st.out.len() - 1, PrimDefView { declares_targets: true, ..st.out.last() })
    } else {
        st
    }
}

/// A `rel targets` line edits the current prim's targets.
pub open spec fn rel_targets_step(st: ParseStateView, line: Seq<char>) -> ParseStateView {
    match path_list_line(line, rel_targets_head(line_body(line))) {
        Some((op, specs)) => if last_is_current(st) {
            with_def(
                st,
                st.out.len() - 1,
                PrimDefView { targets: apply_targets(st.out.last().targets, op, specs), ..st.out.last() },
            )
        } else {
            st
        },
        None => st,
    }
}

/// `attrs` with `name` added unless already there.
pub open spec fn add_name(attrs: Seq<Seq<char>>, name: Seq<char>) -> Seq<Seq<char>> {
    if attrs.contains(name) {
        attrs
    } else {
        attrs.push(name)
    }
}

/// A named relationship line is recorded (and its name declared) on the
/// current prim.
pub open spec fn named_rel_step(st: ParseStateView, line: Seq<char>) -> ParseStateView {
    match named_rel_line(line) {
        Some((name, op, specs)) => if last_is_current(st) {
            let d = st.out.last();
            with_def(
                st,
                st.out.len() - 1,
                PrimDefView {
                    attrs: add_name(d.attrs, name),
                    named_rels: d.named_rels.push((name, op, specs)),
                    ..d
                },
            )
        } else {
            st
        },
        None => st,
    }
}

/// A connection line is recorded (and its attribute declared) on the
/// current prim.
pub open spec fn connection_step(st: ParseStateView, line: Seq<char>) -> ParseStateView {
    match connection_line(line) {
        Some((name, op, specs)) => if last_is_current(st) {
            let d = st.out.last();
            with_def(
                st,
                st.out.len() - 1,
                PrimDefView {
                    attrs: add_name(d.attrs, name),
                    connections: d.connections.push((name, op, specs)),
                    ..d
                },
            )
        } else {
            st
        },
        None => st,
    }
}

/// A `reorder nameChildren` line sets the current prim's child order.
pub open spec fn reorder_step(st: ParseStateView, line: Seq<char>) -> ParseStateView {
    match reorder_name_children(line) {
        Some(order) => if last_is_current(st) {
            with_def(st, st.out.len() - 1, PrimDefView { prim_order: Some(order), ..st.out.last() })
        } else {
            st
        },
        None => st,
    }
}

/// The relationship and child-order lines, in reading order.
pub open spec fn rel_steps(st: ParseStateView, line: Seq<char>) -> ParseStateView {
    reorder_step(
        connection_step(
            named_rel_step(rel_targets_step(custom_targets_step(st, line), line), line),
            line,
        ),
        line,
    )
}

impl ParseState {
    fn custom_targets_exec(&mut self, line: &String)
        ensures
            final(self)@ == custom_targets_step(old(self)@, line@),
    {
        if starts_with_exec(line, "custom rel targets") && self.last_is_current_exec() {
            let n = self.out.len();
            let ghost old_out = self.out@;
            let mut d = take_def(&mut self.out, n - 1);
            d.declares_targets = true;
            proof {
                assert(def_views(old_out).last() == old_out[n - 1]@);
            }
            self.out.insert(n - 1, d);
            proof {
                lemma_def_views_replace(old_out, n - 1, d);
            }
        }
    }

    fn rel_targets_exec(&mut self, line: &String)
        requires
            path_list_line_ok(rel_targets_head(line_body(line@))),
        ensures
            final(self)@ == rel_targets_step(old(self)@, line@),
    {
        match parse_rel_targets_line(line.as_str()) {
            Some((op, specs)) => {
                if self.last_is_current_exec() {
                    let n = self.out.len();
                    let ghost old_out = self.out@;
                    let mut d = take_def(&mut self.out, n - 1);
                    proof {
                        assert(def_views(old_out).last() == old_out[n - 1]@);
                    }
                    d.targets.apply_targets(op, specs);
                    self.out.insert(n - 1, d);
                    proof {
                        lemma_def_views_replace(old_out, n - 1, d);
                    }
                }
            },
            None => {},
        }
    }

    fn named_rel_exec(&mut self, line: &String)
        requires
            named_rel_line_ok(line@),
        ensures
            final(self)@ == named_rel_step(old(self)@, line@),
    {
        match parse_named_rel_line(line.as_str()) {
            Some((name, op, specs)) => {
                if self.last_is_current_exec() {
                    let n = self.out.len();
                    let ghost old_out = self.out@;
                    let mut d = take_def(&mut self.out, n - 1);
                    proof {
                        assert(def_views(old_out).last() == old_out[n - 1]@);
                    }
                    add_name_exec(&mut d.attrs, &name);
                    let ghost rv = rel_views(d.named_rels@);
                    let ghost sv = texts(specs@);
                    let ghost nv = name@;
                    d.named_rels.push((name, op, specs));
                    proof {
                        assert(rel_views(d.named_rels@) =~= rv.push((nv, op, sv)));
                    }
                    self.out.insert(n - 1, d);
                    proof {
                        lemma_def_views_replace(old_out, n - 1, d);
                    }
                }
            },
            None => {},
        }
    }

    fn connection_exec(&mut self, line: &String)
        requires
            connection_line_ok(line@),
        ensures
            final(self)@ == connection_step(old(self)@, line@),
    {
        match parse_connection_line(line.as_str()) {
            Some((name, op, specs)) => {
                if self.last_is_current_exec() {
                    let n = self.out.len();
                    let ghost old_out = self.out@;
                    let mut d = take_def(&mut self.out, n - 1);
                    proof {
                        assert(def_views(old_out).last() == old_out[n - 1]@);
                    }
                    add_name_exec(&mut d.attrs, &name);
                    let ghost rv = rel_views(d.connections@);
                    let ghost sv = texts(specs@);
                    let ghost nv = name@;
                    d.connections.push((name, op, specs));
                    proof {
                        assert(rel_views(d.connections@) =~= rv.push((nv, op, sv)));
                    }
                    self.out.insert(n - 1, d);
                    proof {
                        lemma_def_views_replace(old_out, n - 1, d);
                    }
                }
            },
            None => {},
        }
    }

    fn reorder_exec(&mut self, line: &String)
        requires
            reorder_rhs(line@) matches Some(rhs) ==> string_list_ok(rhs),
        ensures
            final(self)@ == reorder_step(old(self)@, line@),
    {
        match parse_reorder_name_children(line.as_str()) {
            Some(order) => {
                if self.last_is_current_exec() {
                    let n = self.out.len();
                    let ghost old_out = self.out@;
                    let mut d = take_def(&mut self.out, n - 1);
                    proof {
                        assert(def_views(old_out).last() == old_out[n - 1]@);
                    }
                    d.prim_order = Some(order);
                    self.out.insert(n - 1, d);
                    proof {
                        lemma_def_views_replace(old_out, n - 1, d);
                    }
                }
            },
            None => {},
        }
    }

    fn rel_steps_exec(&mut self, line: &String)
        requires
            rel_line_ok(line@),
        ensures
            final(self)@ == rel_steps(old(self)@, line@),
    {
        self.custom_targets_exec(line);
        self.rel_targets_exec(line);
        self.named_rel_exec(line);
        self.connection_exec(line);
        self.reorder_exec(line);
    }
}

fn add_name_exec(attrs: &mut Vec<String>, name: &String)
    ensures
        texts(final(attrs)@) == add_name(texts(old(attrs)@), name@),
{
    if !contains_string(attrs, name) {
        let ghost before = texts(attrs@);
        attrs.push(string_copy(name));
        proof {
            assert(texts(attrs@) =~= before.push(name@));
        }
    }
}

// ---------------------------------------------------------------------------
// Braces.
// ---------------------------------------------------------------------------

/// The name of the innermost brace when it is a variant set, else empty.
pub open spec fn enclosing_set(braces: Seq<BraceView>) -> Seq<char> {
    if braces.len() > 0 {
        match braces.last() {
            BraceView::VariantSet(s) => s,
            _ => Seq::empty(),
        }
    } else {
        Seq::empty()
    }
}

/// The record of a prim whose `{` has come: the pending header's metadata
/// and nothing else yet.
pub open spec fn new_def(
    path: Seq<char>,
    p: PendingPrimView,
    vp: Option<(Seq<char>, Seq<char>, Seq<char>)>,
    fvc: Seq<(Seq<char>, Seq<char>, Seq<char>)>,
) -> PrimDefView {
    PrimDefView {
        path,
        specifier: p.specifier,
        attrs: Seq::empty(),
        time_samples: Seq::empty(),
        references: p.references,
        inherits: p.inherits,
        specializes: p.specializes,
        payloads: p.payloads,
        targets: no_paths(),
        declares_targets: false,
        named_rels: Seq::empty(),
        connections: Seq::empty(),
        prim_order: None,
        variant_selections: p.variant_selections,
        variant_set_names: p.variant_set_names,
        variant_parent: vp,
        full_variant_context: fvc,
        variant_fields: Seq::empty(),
        variant_branch_arcs: Seq::empty(),
    }
}

/// An opening `{`: it opens the pending prim's block (recording the prim),
/// else a variant set named on the line, else a variant branch named on the
/// line, else some other block.
pub open spec fn open_brace(st: ParseStateView, vsn: Option<Seq<char>>, vbn: Option<Seq<char>>) -> ParseStateView {
    match st.pending {
        Some(p) => {
            let vp = match current_variant_context(st.braces) {
                Some((s, b)) => Some((owning_prim_path(st.scope), s, b)),
                None => None,
            };
            let fvc = full_variant_context(st.braces, st.scope);
            let scope2 = st.scope.push(p.name);
            ParseStateView {
                out: st.out.push(new_def(slash_join(scope2), p, vp, fvc)),
                scope: scope2,
                braces: st.braces.push(BraceView::Prim),
                pending: None,
            }
        },
        None => match vsn {
            Some(s) => ParseStateView { braces: st.braces.push(BraceView::VariantSet(s)), ..st },
            None => match vbn {
                Some(b) => ParseStateView {
                    braces: st.braces.push(BraceView::VariantBranch(enclosing_set(st.braces), b)),
                    ..st
                },
                None => ParseStateView { braces: st.braces.push(BraceView::Other), ..st },
            },
        },
    }
}

/// A closing `}` pops the brace stack, and the scope with a prim brace.
pub open spec fn close_brace(st: ParseStateView) -> ParseStateView {
    if st.braces.len() == 0 {
        st
    } else if st.braces.last() is Prim {
        ParseStateView {
            braces: st.braces.drop_last(),
            scope: if st.scope.len() > 0 {
                st.scope.drop_last()
            } else {
                st.scope
            },
            ..st
        }
    } else {
        ParseStateView { braces: st.braces.drop_last(), ..st }
    }
}

/// The braces of `line` from index `k` on, in order.
pub open spec fn braces_from(
    st: ParseStateView,
    line: Seq<char>,
    k: int,
    vsn: Option<Seq<char>>,
    vbn: Option<Seq<char>>,
) -> ParseStateView
    decreases line.len() - k,
{
    if k < 0 || k >= line.len() {
        st
    } else {
        let st2 = if line[k] == '{' {
            open_brace(st, vsn, vbn)
        } else if line[k] == '}' {
            close_brace(st)
        } else {
            st
        };
        braces_from(st2, line, k + 1, vsn, vbn)
    }
}

impl ParseState {
    fn enclosing_set_exec(&self) -> (r: String)
        ensures
            r@ == enclosing_set(self@.braces),
    {
        let n = self.braces.len();
        if n > 0 {
            proof {
                assert(self@.braces.last() == self.braces@[n - 1]@);
            }
            match &self.braces[n - 1] {
                BraceKind::VariantSet(s) => string_copy(s),
                _ => String::new(),
            }
        } else {
            String::new()
        }
    }

    fn open_brace_exec(&mut self, vsn: &Option<String>, vbn: &Option<String>)
        ensures
            final(self)@ == open_brace(old(self)@, crate::text::opt_text(*vsn), crate::text::opt_text(*vbn)),
    {
        let ghost s0 = self@;
        match self.pending.take() {
            Some(p) => {
                let vp = match current_variant_context_exec(&self.braces) {
                    Some((s, b)) => Some((owning_prim_path_exec(&self.scope), s, b)),
                    None => None,
                };
                let fvc = full_variant_context_exec(&self.braces, &self.scope);
                let ghost sc = texts(self.scope@);
                self.scope.push(string_copy(&p.name));
                proof {
                    assert(texts(self.scope@) =~= sc.push(p.name@));
                }
                let ghost bv = brace_views(self.braces@);
                self.braces.push(BraceKind::Prim);
                proof {
                    assert(brace_views(self.braces@) =~= bv.push(BraceView::Prim));
                }
                let path = slash_join_exec(&self.scope);
                let d = PrimDef {
                    path,
                    specifier: p.specifier,
                    attrs: Vec::new(),
                    time_samples: Vec::new(),
                    references: p.references,
                    inherits: p.inherits,
                    specializes: p.specializes,
                    payloads: p.payloads,
                    targets: PathsDef::new(),
                    declares_targets: false,
                    named_rels: Vec::new(),
                    connections: Vec::new(),
                    prim_order: None,
                    variant_selections: p.variant_selections,
                    variant_set_names: p.variant_set_names,
                    variant_parent: vp,
                    full_variant_context: fvc,
                    variant_fields: Vec::new(),
                    variant_branch_arcs: Vec::new(),
                };
                proof {
                    assert(texts(d.attrs@) =~= Seq::<Seq<char>>::empty());
                    assert(sample_views(d.time_samples@) =~= Seq::<(Seq<char>, Seq<(Seq<char>, Seq<char>)>)>::empty());
                    assert(rel_views(d.named_rels@) =~= Seq::<(Seq<char>, TargetOp, Seq<Seq<char>>)>::empty());
                    assert(rel_views(d.connections@) =~= Seq::<(Seq<char>, TargetOp, Seq<Seq<char>>)>::empty());
                    assert(triple_views(d.variant_fields@) =~= Seq::<(Seq<char>, Seq<char>, Seq<char>)>::empty());
                    assert(arc_views(d.variant_branch_arcs@) =~= Seq::<VariantBranchArcView>::empty());
                    let pv = s0.pending->0;
                    let vpv = match current_variant_context(s0.braces) {
                        Some((s, b)) => Some((owning_prim_path(s0.scope), s, b)),
                        None => None,
                    };
                    assert(d@ == new_def(slash_join(sc.push(pv.name)), pv, vpv, full_variant_context(s0.braces, s0.scope)));
                }
                let ghost ov = def_views(self.out@);
                self.out.push(d);
                proof {
                    assert(def_views(self.out@) =~= ov.push(d@));
                }
            },
            None => {
                let ghost bv = brace_views(self.braces@);
                match vsn {
                    Some(s) => {
                        self.braces.push(BraceKind::VariantSet(string_copy(s)));
                        proof {
                            assert(brace_views(self.braces@) =~= bv.push(BraceView::VariantSet(s@)));
                        }
                    },
                    None => match vbn {
                        Some(b) => {
                            let set = self.enclosing_set_exec();
                            self.braces.push(BraceKind::VariantBranch(set, string_copy(b)));
                            proof {
                                assert(brace_views(self.braces@) =~= bv.push(
                                    BraceView::VariantBranch(enclosing_set(bv), b@),
                                ));
                            }
                        },
                        None => {
                            self.braces.push(BraceKind::Other);
                            proof {
                                assert(brace_views(self.braces@) =~= bv.push(BraceView::Other));
                            }
                        },
                    },
                }
            },
        }
    }

    fn close_brace_exec(&mut self)
        ensures
            final(self)@ == close_brace(old(self)@),
    {
        let ghost bv = brace_views(self.braces@);
        let ghost sc = texts(self.scope@);
        match self.braces.pop() {
            Some(kind) => {
                proof {
                    assert(brace_views(self.braces@) =~= bv.drop_last());
                    assert(bv.last() == kind@);
                }
                match kind {
                    BraceKind::Prim => {
                        let _ = self.scope.pop();
                        proof {
                            assert(texts(self.scope@) =~= if sc.len() > 0 {
                                sc.drop_last()
                            } else {
                                sc
                            });
                        }
                    },
                    _ => {},
                }
            },
            None => {},
        }
    }

    fn braces_exec(&mut self, line: &String, vsn: &Option<String>, vbn: &Option<String>)
        ensures
            final(self)@ == braces_from(
                old(self)@,
                line@,
                0,
                crate::text::opt_text(*vsn),
                crate::text::opt_text(*vbn),
            ),
    {
        let cs = crate::text::chars_of(line.as_str());
        let n = cs.len();
        let mut k: usize = 0;
        while k < n
            invariant
                k <= n,
                n == cs@.len(),
                cs@ == line@,
                braces_from(
                    old(self)@,
                    line@,
                    0,
                    crate::text::opt_text(*vsn),
                    crate::text::opt_text(*vbn),
                ) == braces_from(
                    self@,
                    line@,
                    k as int,
                    crate::text::opt_text(*vsn),
                    crate::text::opt_text(*vbn),
                ),
            decreases n - k,
        {
            if cs[k] == '{' {
                self.open_brace_exec(vsn, vbn);
            } else if cs[k] == '}' {
                self.close_brace_exec();
            }
            k = k + 1;
        }
    }
}

// ---------------------------------------------------------------------------
// Time-sample blocks.
// ---------------------------------------------------------------------------

/// The `time: value` texts of the `,`-separated parts, in order; parts
/// without `:` add nothing.
pub open spec fn collect_samples(parts: Seq<Seq<char>>) -> Seq<(Seq<char>, Seq<char>)>
    decreases parts.len(),
{
    if parts.len() == 0 {
        Seq::empty()
    } else {
        collect_samples(parts.drop_last()) + match time_sample_texts(trim(parts.last())) {
            Some(x) => seq![x],
            None => Seq::empty(),
        }
    }
}

/// Reads sample lines from line `i` until a line starting with `}` (which is
/// consumed) or the end, appending their entries to `acc`; gives the entries
/// and the index of the next unread line.
pub open spec fn sample_lines(lines: Seq<Seq<char>>, i: int, acc: Seq<(Seq<char>, Seq<char>)>) -> (
    Seq<(Seq<char>, Seq<char>)>,
    int,
)
    decreases lines.len() - i,
{
    if i < 0 || i >= lines.len() {
        (acc, i)
    } else if starts_with_char(trim(lines[i]), '}') {
        (acc, i + 1)
    } else {
        sample_lines(lines, i + 1, acc + collect_samples(split_char(trim(lines[i]), ',')))
    }
}

/// `a > b` for optional indices, `None` being the smallest.
pub open spec fn opt_after(a: Option<int>, b: Option<int>) -> bool {
    match (a, b) {
        (Some(x), Some(y)) => x > y,
        (Some(_), None) => true,
        _ => false,
    }
}

/// The entries written on the `.timeSamples = {` line itself.
pub open spec fn inline_samples(line: Seq<char>) -> Seq<(Seq<char>, Seq<char>)> {
    match find_char(line, '{') {
        Some(bp) => {
            let inl = trim(line.skip(bp + 1));
            if inl.len() > 0 && !starts_with_char(inl, '}') {
                collect_samples(split_char(trim_end_char(inl, '}'), ','))
            } else {
                Seq::empty()
            }
        },
        None => Seq::empty(),
    }
}

/// A `<type> name.timeSamples = {` line inside a prim: its entries (on the
/// line and, unless the block closes on it, on the following lines up to
/// `}`) are recorded on the prim, which also declares the attribute. Lines
/// from `i` on follow this one; gives the next unread line.
pub open spec fn samples_step(lines: Seq<Seq<char>>, i: int, st: ParseStateView, line: Seq<char>) -> (
    ParseStateView,
    int,
) {
    if contains_sub(line, ".timeSamples"@) && time_samples_attr(line) is Some && st.scope.len() > 0 {
        let attr = time_samples_attr(line)->0;
        let inline = inline_samples(line);
        let (samples, j) = if find_char(line, '}') is None || opt_after(
            rfind_char(line, '{'),
            rfind_char(line, '}'),
        ) {
            sample_lines(lines, i, inline)
        } else {
            (inline, i)
        };
        let st2 = match find_def(st.out, slash_join(st.scope)) {
            Some(k) => with_def(
                st,
                k,
                PrimDefView {
                    attrs: add_name(st.out[k].attrs, attr),
                    time_samples: st.out[k].time_samples.push((attr, samples)),
                    ..st.out[k]
                },
            ),
            None => st,
        };
        (st2, j)
    } else {
        (st, i)
    }
}

fn collect_samples_exec(parts: &Vec<Vec<char>>, out: &mut Vec<(String, String)>)
    ensures
        pair_views(final(out)@) == pair_views(old(out)@) + collect_samples(views(parts@)),
{
    let ghost ps = views(parts@);
    let mut i: usize = 0;
    proof {
        assert(ps.take(0) =~= Seq::<Seq<char>>::empty());
        assert(pair_views(out@) =~= pair_views(old(out)@) + collect_samples(ps.take(0)));
    }
    while i < parts.len()
        invariant
            i <= parts@.len(),
            ps == views(parts@),
            pair_views(out@) == pair_views(old(out)@) + collect_samples(ps.take(i as int)),
        decreases parts.len() - i,
    {
        proof {
            assert(ps.take(i + 1).drop_last() =~= ps.take(i as int));
            assert(ps.take(i + 1).last() == parts@[i as int]@);
        }
        let t = crate::text::trim_vec(&parts[i]);
        let ts = crate::text::text_of(&t);
        let ghost before = pair_views(out@);
        match split_time_sample_entry(ts.as_str()) {
            Some((a, b)) => {
                out.push((a, b));
                proof {
                    assert(pair_views(out@) =~= before + seq![(a@, b@)]);
                }
            },
            None => {
                proof {
                    assert(before + Seq::<(Seq<char>, Seq<char>)>::empty() =~= before);
                }
            },
        }
        proof {
            assert(pair_views(old(out)@) + collect_samples(ps.take(i + 1)) =~= pair_views(old(out)@)
                + collect_samples(ps.take(i as int)) + match time_sample_texts(trim(ps[i as int])) {
                Some(x) => seq![x],
                None => Seq::empty(),
            });
        }
        i = i + 1;
    }
    proof {
        assert(ps.take(i as int) =~= ps);
    }
}

fn sample_lines_exec(lines: &Vec<String>, i: usize, out: &mut Vec<(String, String)>) -> (j: usize)
    requires
        i <= lines@.len(),
    ensures
        sample_lines(texts(lines@), i as int, pair_views(old(out)@)) == (pair_views(final(out)@), j as int),
        i <= j <= lines@.len(),
{
    let ghost lv = texts(lines@);
    let mut k = i;
    while k < lines.len()
        invariant
            i <= k <= lines@.len(),
            lv == texts(lines@),
            sample_lines(lv, i as int, pair_views(old(out)@)) == sample_lines(lv, k as int, pair_views(out@)),
        decreases lines.len() - k,
    {
        let cs = crate::text::chars_of(lines[k].as_str());
        let t = crate::text::trim_vec(&cs);
        if crate::text::starts_with_char_vec(&t, '}') {
            return k + 1;
        }
        let parts = crate::text::split_vec(&t, ',');
        collect_samples_exec(&parts, out);
        k = k + 1;
    }
    k
}

fn opt_after_exec(a: Option<usize>, b: Option<usize>) -> (r: bool)
    ensures
        r == opt_after(
            match a {
                Some(x) => Some(x as int),
                None => None,
            },
            match b {
                Some(y) => Some(y as int),
                None => None,
            },
        ),
{
    match (a, b) {
        (Some(x), Some(y)) => x > y,
        (Some(_), None) => true,
        _ => false,
    }
}

fn inline_samples_exec(line: &Vec<char>, out: &mut Vec<(String, String)>)
    requires
        old(out)@.len() == 0,
    ensures
        pair_views(final(out)@) == inline_samples(line@),
{
    proof {
        assert(pair_views(out@) =~= Seq::<(Seq<char>, Seq<char>)>::empty());
    }
    match crate::text::find_vec(line, '{') {
        Some(bp) => {
            let n = line.len();
            let rest = crate::text::sub_vec(line, bp + 1, n);
            proof {
                assert(rest@ =~= line@.skip(bp + 1));
            }
            let inl = crate::text::trim_vec(&rest);
            if inl.len() > 0 && !crate::text::starts_with_char_vec(&inl, '}') {
                let body = crate::text::trim_end_char_vec(&inl, '}');
                let parts = crate::text::split_vec(&body, ',');
                collect_samples_exec(&parts, out);
                proof {
                    assert(pair_views(out@) =~= Seq::<(Seq<char>, Seq<char>)>::empty() + collect_samples(views(parts@)));
                }
            }
        },
        None => {},
    }
}

impl ParseState {
    fn samples_exec(&mut self, lines: &Vec<String>, i: usize, line: &String) -> (j: usize)
        requires
            i <= lines@.len(),
        ensures
            samples_step(texts(lines@), i as int, old(self)@, line@) == (final(self)@, j as int),
            i <= j <= lines@.len(),
    {
        let cs = crate::text::chars_of(line.as_str());
        let pat = crate::text::chars_of(".timeSamples");
        if crate::text::find_sub_vec(&cs, &pat).is_none() {
            return i;
        }
        let attr = match parse_time_samples_attr(line.as_str()) {
            Some(a) => a,
            None => return i,
        };
        if self.scope.len() == 0 {
            return i;
        }
        let current = slash_join_exec(&self.scope);
        let mut samples: Vec<(String, String)> = Vec::new();
        inline_samples_exec(&cs, &mut samples);
        let open = crate::text::rfind_vec(&cs, '{');
        let close = crate::text::rfind_vec(&cs, '}');
        let j = if crate::text::find_vec(&cs, '}').is_none() || opt_after_exec(open, close) {
            sample_lines_exec(lines, i, &mut samples)
        } else {
            i
        };
        match find_def_exec(&self.out, &current) {
            Some(k) => {
                let ghost old_out = self.out@;
                let mut d = take_def(&mut self.out, k);
                add_name_exec(&mut d.attrs, &attr);
                let ghost sv = sample_views(d.time_samples@);
                let ghost entry = (attr@, pair_views(samples@));
                d.time_samples.push((attr, samples));
                proof {
                    assert(sample_views(d.time_samples@) =~= sv.push(entry));
                }
                self.out.insert(k, d);
                proof {
                    lemma_def_views_replace(old_out, k as int, d);
                }
            },
            None => {},
        }
        j
    }
}

// ---------------------------------------------------------------------------
// Metadata blocks.
// ---------------------------------------------------------------------------

/// `metas` with the unfinished accumulation, if any, appended.
pub open spec fn finish_metas(metas: Seq<Seq<char>>, acc: Option<Seq<char>>) -> Seq<Seq<char>> {
    match acc {
        Some(a) => metas.push(a),
        None => metas,
    }
}

/// A line that opens a bracketed or braced value continued on later lines.
pub open spec fn opens_multiline(c: Seq<char>) -> bool {
    (find_char(c, '[') is Some && find_char(c, ']') is None) || (starts_with_text(c, "variants"@)
        && find_char(c, '{') is Some && find_char(c, '}') is None)
}

/// Reads metadata lines from line `i` until a line starting with `)` or the
/// end, joining a value continued over lines with spaces until a line with
/// `]` or `}`. With `consume_close`, the `)` line is consumed and reported
/// when it holds a `{`. Gives the metadata lines, the next unread line and
/// that report.
pub open spec fn accumulate_metas(
    lines: Seq<Seq<char>>,
    i: int,
    acc: Option<Seq<char>>,
    metas: Seq<Seq<char>>,
    consume_close: bool,
) -> (Seq<Seq<char>>, int, bool)
    decreases lines.len() - i,
{
    if i < 0 || i >= lines.len() {
        (finish_metas(metas, acc), i, false)
    } else if starts_with_char(trim(lines[i]), ')') {
        if consume_close {
            (finish_metas(metas, acc), i + 1, find_char(lines[i], '{') is Some)
        } else {
            (finish_metas(metas, acc), i, false)
        }
    } else {
        let c = trim(lines[i]);
        match acc {
            Some(a) => {
                let a2 = a + seq![' '] + c;
                if find_char(c, ']') is Some || find_char(c, '}') is Some {
                    accumulate_metas(lines, i + 1, None, metas.push(a2), consume_close)
                } else {
                    accumulate_metas(lines, i + 1, Some(a2), metas, consume_close)
                }
            },
            None => if opens_multiline(c) {
                accumulate_metas(lines, i + 1, Some(c), metas, consume_close)
            } else {
                accumulate_metas(lines, i + 1, None, metas.push(c), consume_close)
            },
        }
    }
}

/// The metadata of a line with `(`: the trimmed text between the first `(`
/// and the last `)` when both are on the line (nothing if empty or out of
/// order), otherwise the following lines read by `accumulate_metas`.
pub open spec fn meta_lines(lines: Seq<Seq<char>>, i: int, line: Seq<char>, consume_close: bool) -> (
    Seq<Seq<char>>,
    int,
    bool,
) {
    match (find_char(line, '('), rfind_char(line, ')')) {
        (Some(open), Some(close)) => if close > open {
            let inl = trim(line.subrange(open + 1, close));
            (
                if inl.len() > 0 {
                    seq![inl]
                } else {
                    Seq::empty()
                },
                i,
                false,
            )
        } else {
            (Seq::empty(), i, false)
        },
        _ => accumulate_metas(lines, i, None, Seq::empty(), consume_close),
    }
}

fn contains_char_vec(v: &Vec<char>, c: char) -> (r: bool)
    ensures
        r == (find_char(v@, c) is Some),
{
    crate::text::find_vec(v, c).is_some()
}

fn accumulate_metas_exec(lines: &Vec<String>, i: usize, consume_close: bool, metas: &mut Vec<String>) -> (r: (
    usize,
    bool,
))
    requires
        i <= lines@.len(),
        old(metas)@.len() == 0,
    ensures
        accumulate_metas(texts(lines@), i as int, None, Seq::empty(), consume_close) == (
            texts(final(metas)@),
            r.0 as int,
            r.1,
        ),
        i <= r.0 <= lines@.len(),
{
    let ghost lv = texts(lines@);
    let mut acc: Option<Vec<char>> = None;
    let mut k = i;
    proof {
        assert(texts(metas@) =~= Seq::<Seq<char>>::empty());
    }
    while k < lines.len()
        invariant
            i <= k <= lines@.len(),
            lv == texts(lines@),
            accumulate_metas(lv, i as int, None, Seq::empty(), consume_close) == accumulate_metas(
                lv,
                k as int,
                match acc {
                    Some(a) => Some(a@),
                    None => None,
                },
                texts(metas@),
                consume_close,
            ),
        decreases lines.len() - k,
    {
        let raw = crate::text::chars_of(lines[k].as_str());
        let c = crate::text::trim_vec(&raw);
        proof {
            assert(lv[k as int] == raw@);
        }
        if crate::text::starts_with_char_vec(&c, ')') {
            let ghost before = texts(metas@);
            match acc {
                Some(a) => {
                    metas.push(crate::text::text_of(&a));
                    proof {
                        assert(texts(metas@) =~= before.push(a@));
                    }
                },
                None => {},
            }
            if consume_close {
                return (k + 1, contains_char_vec(&raw, '{'));
            } else {
                return (k, false);
            }
        }
        match acc {
            Some(a) => {
                let mut a2 = a;
                a2.push(' ');
                let ghost mid = a2@;
                let mut t: usize = 0;
                while t < c.len()
                    invariant
                        t <= c@.len(),
                        a2@ == mid + c@.take(t as int),
                    decreases c.len() - t,
                {
                    proof {
                        assert(c@.take(t + 1) =~= c@.take(t as int).push(c@[t as int]));
                    }
                    a2.push(c[t]);
                    t = t + 1;
                }
                proof {
                    assert(c@.take(t as int) =~= c@);
                    assert(a2@ =~= a@ + seq![' '] + c@);
                }
                if contains_char_vec(&c, ']') || contains_char_vec(&c, '}') {
                    let ghost before = texts(metas@);
                    metas.push(crate::text::text_of(&a2));
                    proof {
                        assert(texts(metas@) =~= before.push(a2@));
                    }
                    acc = None;
                } else {
                    acc = Some(a2);
                }
            },
            None => {
                let opens = (contains_char_vec(&c, '[') && !contains_char_vec(&c, ']')) || (
                crate::text::strip_prefix_vec(&c, &crate::text::chars_of("variants")).is_some()
                    && contains_char_vec(&c, '{') && !contains_char_vec(&c, '}'));
                if opens {
                    acc = Some(c);
                } else {
                    let ghost before = texts(metas@);
                    metas.push(crate::text::text_of(&c));
                    proof {
                        assert(texts(metas@) =~= before.push(c@));
                    }
                }
            },
        }
        k = k + 1;
    }
    let ghost before = texts(metas@);
    match acc {
        Some(a) => {
            metas.push(crate::text::text_of(&a));
            proof {
                assert(texts(metas@) =~= before.push(a@));
            }
        },
        None => {},
    }
    (k, false)
}

fn meta_lines_exec(lines: &Vec<String>, i: usize, line: &String, consume_close: bool) -> (r: (
    Vec<String>,
    usize,
    bool,
))
    requires
        i <= lines@.len(),
    ensures
        meta_lines(texts(lines@), i as int, line@, consume_close) == (texts(r.0@), r.1 as int, r.2),
        i <= r.1 <= lines@.len(),
{
    let cs = crate::text::chars_of(line.as_str());
    let mut metas: Vec<String> = Vec::new();
    match (crate::text::find_vec(&cs, '('), crate::text::rfind_vec(&cs, ')')) {
        (Some(open), Some(close)) => {
            if close > open {
                proof {
                    crate::text::lemma_rfind_char(cs@, ')');
                }
                let inner = crate::text::sub_vec(&cs, open + 1, close);
                let inl = crate::text::trim_vec(&inner);
                if inl.len() > 0 {
                    metas.push(crate::text::text_of(&inl));
                    proof {
                        assert(texts(metas@) =~= seq![inl@]);
                    }
                } else {
                    proof {
                        assert(texts(metas@) =~= Seq::<Seq<char>>::empty());
                    }
                }
            } else {
                proof {
                    assert(texts(metas@) =~= Seq::<Seq<char>>::empty());
                }
            }
            (metas, i, false)
        },
        _ => {
            let (j, closing) = accumulate_metas_exec(lines, i, consume_close, &mut metas);
            (metas, j, closing)
        },
    }
}

/// A metadata line the list-op readers of a prim header can read without
/// slicing an inverted bracket span.
pub open spec fn meta_line_ok(ml: Seq<char>) -> bool {
    &&& references_line_ok(ml)
    &&& path_list_line_ok(inherits_head(line_body(ml)))
    &&& path_list_line_ok(specializes_head(line_body(ml)))
    &&& payloads_line_ok(ml)
    &&& variant_selections_line_ok(ml)
    &&& (set_names_rhs(ml) matches Some(rhs) ==> (starts_with_char(rhs, '[') ==> string_list_ok(rhs)))
}

/// A pending prim after one metadata line: its references, inherits,
/// specializes, payloads, variant selections and variant set names.
pub open spec fn apply_meta(p: PendingPrimView, ml: Seq<char>) -> PendingPrimView {
    let p1 = match references_line(ml) {
        Some((op, v)) => PendingPrimView { references: apply_references(p.references, op, v), ..p },
        None => p,
    };
    let p2 = match path_list_line(ml, inherits_head(line_body(ml))) {
        Some((op, v)) => PendingPrimView { inherits: apply_inherits(p1.inherits, op, v), ..p1 },
        None => p1,
    };
    let p3 = match path_list_line(ml, specializes_head(line_body(ml))) {
        Some((op, v)) => PendingPrimView { specializes: apply_inherits(p2.specializes, op, v), ..p2 },
        None => p2,
    };
    let p4 = match payloads_line(ml) {
        Some((op, v)) => PendingPrimView { payloads: apply_references(p3.payloads, op, v), ..p3 },
        None => p3,
    };
    let p5 = match variant_selections_line(ml) {
        Some(sels) => PendingPrimView { variant_selections: p4.variant_selections + sels, ..p4 },
        None => p4,
    };
    match variant_set_names_line(ml) {
        Some(names) => PendingPrimView { variant_set_names: p5.variant_set_names + names, ..p5 },
        None => p5,
    }
}

/// A pending prim after the metadata lines, in order.
pub open spec fn apply_metas(p: PendingPrimView, metas: Seq<Seq<char>>) -> PendingPrimView
    decreases metas.len(),
{
    if metas.len() == 0 {
        p
    } else {
        apply_meta(apply_metas(p, metas.drop_last()), metas.last())
    }
}

/// A line with `(` while a prim header is pending: its metadata is read
/// into the pending prim. `None` when a metadata line cannot be read.
pub open spec fn meta_step(lines: Seq<Seq<char>>, i: int, st: ParseStateView, line: Seq<char>) -> Option<
    (ParseStateView, int),
> {
    if find_char(line, '(') is Some && st.pending is Some {
        let (metas, j, _) = meta_lines(lines, i, line, false);
        if forall|k: int| 0 <= k < metas.len() ==> meta_line_ok(#[trigger] metas[k]) {
            Some((ParseStateView { pending: Some(apply_metas(st.pending->0, metas)), ..st }, j))
        } else {
            None
        }
    } else {
        Some((st, i))
    }
}

fn pairs_append(dst: &mut Vec<(String, String)>, src: Vec<(String, String)>)
    ensures
        pair_views(final(dst)@) == pair_views(old(dst)@) + pair_views(src@),
{
    let mut src = src;
    let ghost a = pair_views(dst@);
    let ghost b = pair_views(src@);
    dst.append(&mut src);
    proof {
        assert(pair_views(dst@) =~= a + b);
    }
}

fn strings_append(dst: &mut Vec<String>, src: Vec<String>)
    ensures
        texts(final(dst)@) == texts(old(dst)@) + texts(src@),
{
    let mut src = src;
    let ghost a = texts(dst@);
    let ghost b = texts(src@);
    dst.append(&mut src);
    proof {
        assert(texts(dst@) =~= a + b);
    }
}

impl PendingPrim {
    fn apply_meta_exec(&mut self, ml: &String)
        requires
            meta_line_ok(ml@),
        ensures
            final(self)@ == apply_meta(old(self)@, ml@),
    {
        match parse_references_line(ml.as_str()) {
            Some((op, v)) => self.references.apply(op, v),
            None => {},
        }
        match parse_inherits_line(ml.as_str()) {
            Some((op, v)) => self.inherits.apply_inherits(op, v),
            None => {},
        }
        match parse_specializes_line(ml.as_str()) {
            Some((op, v)) => self.specializes.apply_inherits(op, v),
            None => {},
        }
        match parse_payloads_line(ml.as_str()) {
            Some((op, v)) => self.payloads.apply(op, v),
            None => {},
        }
        match parse_variant_selections_line(ml.as_str()) {
            Some(sels) => pairs_append(&mut self.variant_selections, sels),
            None => {},
        }
        match parse_variant_set_names_line(ml.as_str()) {
            Some(names) => strings_append(&mut self.variant_set_names, names),
            None => {},
        }
    }
}

impl ParseState {
    fn meta_exec(&mut self, lines: &Vec<String>, i: usize, line: &String) -> (j: usize)
        requires
            i <= lines@.len(),
            meta_step(texts(lines@), i as int, old(self)@, line@) is Some,
        ensures
            meta_step(texts(lines@), i as int, old(self)@, line@) == Some((final(self)@, j as int)),
            i <= j <= lines@.len(),
    {
        let cs = crate::text::chars_of(line.as_str());
        if !contains_char_vec(&cs, '(') || self.pending.is_none() {
            return i;
        }
        let (metas, j, _) = meta_lines_exec(lines, i, line, false);
        let ghost mv = texts(metas@);
        let mut p = self.pending.take().unwrap();
        let ghost p0 = p@;
        let mut q: usize = 0;
        proof {
            assert(mv.take(0) =~= Seq::<Seq<char>>::empty());
        }
        while q < metas.len()
            invariant
                q <= metas@.len(),
                mv == texts(metas@),
                forall|x: int| 0 <= x < metas@.len() ==> meta_line_ok(#[trigger] mv[x]),
                p@ == apply_metas(p0, mv.take(q as int)),
            decreases metas.len() - q,
        {
            proof {
                assert(mv.take(q + 1).drop_last() =~= mv.take(q as int));
                assert(mv.take(q + 1).last() == metas@[q as int]@);
                assert(meta_line_ok(mv[q as int]));
            }
            p.apply_meta_exec(&metas[q]);
            q = q + 1;
        }
        proof {
            assert(mv.take(q as int) =~= mv);
        }
        self.pending = Some(p);
        j
    }
}

/// A branch header's metadata before any line is read.
pub open spec fn empty_arc(set_name: Seq<char>, branch: Seq<char>) -> VariantBranchArcView {
    VariantBranchArcView {
        set_name,
        branch_name: branch,
        references: no_references(),
        inherits: no_paths(),
        specializes: no_paths(),
        payloads: no_references(),
        variant_selections: Seq::empty(),
    }
}

/// A metadata line the list-op readers of a branch header can read without
/// slicing an inverted bracket span.
pub open spec fn branch_meta_line_ok(ml: Seq<char>) -> bool {
    &&& references_line_ok(ml)
    &&& path_list_line_ok(inherits_head(line_body(ml)))
    &&& path_list_line_ok(specializes_head(line_body(ml)))
    &&& payloads_line_ok(ml)
    &&& variant_selections_line_ok(ml)
}

/// A branch header's metadata after one line.
pub open spec fn apply_branch_meta(a: VariantBranchArcView, ml: Seq<char>) -> VariantBranchArcView {
    let a1 = match references_line(ml) {
        Some((op, v)) => VariantBranchArcView { references: apply_references(a.references, op, v), ..a },
        None => a,
    };
    let a2 = match path_list_line(ml, inherits_head(line_body(ml))) {
        Some((op, v)) => VariantBranchArcView { inherits: apply_inherits(a1.inherits, op, v), ..a1 },
        None => a1,
    };
    let a3 = match path_list_line(ml, specializes_head(line_body(ml))) {
        Some((op, v)) => VariantBranchArcView { specializes: apply_inherits(a2.specializes, op, v), ..a2 },
        None => a2,
    };
    let a4 = match payloads_line(ml) {
        Some((op, v)) => VariantBranchArcView { payloads: apply_references(a3.payloads, op, v), ..a3 },
        None => a3,
    };
    match variant_selections_line(ml) {
        Some(sels) => VariantBranchArcView { variant_selections: a4.variant_selections + sels, ..a4 },
        None => a4,
    }
}

/// A branch header's metadata after the lines, in order.
pub open spec fn apply_branch_metas(a: VariantBranchArcView, metas: Seq<Seq<char>>) -> VariantBranchArcView
    decreases metas.len(),
{
    if metas.len() == 0 {
        a
    } else {
        apply_branch_meta(apply_branch_metas(a, metas.drop_last()), metas.last())
    }
}

/// Whether a reference list-op says anything.
pub open spec fn references_used(d: ReferencesDefView) -> bool {
    d.explicit is Some || d.prepend.len() > 0 || d.append.len() > 0
}

/// Whether a path list-op says anything.
pub open spec fn paths_used(d: PathsDefView) -> bool {
    d.explicit is Some || d.prepend.len() > 0 || d.append.len() > 0
}

/// Whether a branch header authored any list-op or selection.
pub open spec fn has_arcs(a: VariantBranchArcView) -> bool {
    references_used(a.references) || paths_used(a.inherits) || paths_used(a.specializes)
        || references_used(a.payloads) || a.variant_selections.len() > 0
}

/// A variant branch header with `(` (inside a variant set, no prim pending):
/// its metadata is recorded on the prim owning the scope when it authors
/// anything; a `{` on the `)` line that closes multi-line metadata opens the
/// branch. `None` when a metadata line cannot be read.
pub open spec fn branch_meta_step(
    lines: Seq<Seq<char>>,
    i: int,
    st: ParseStateView,
    line: Seq<char>,
    vbn: Option<Seq<char>>,
) -> Option<(ParseStateView, int)> {
    match vbn {
        Some(branch) => if find_char(line, '(') is Some {
            let set_name = enclosing_set(st.braces);
            let owning = slash_join(st.scope);
            let (metas, j, closing) = meta_lines(lines, i, line, true);
            let st1 = if closing {
                ParseStateView {
                    braces: st.braces.push(BraceView::VariantBranchMeta(set_name, branch)),
                    ..st
                }
            } else {
                st
            };
            if forall|k: int| 0 <= k < metas.len() ==> branch_meta_line_ok(#[trigger] metas[k]) {
                let arc = apply_branch_metas(empty_arc(set_name, branch), metas);
                if has_arcs(arc) {
                    match find_def(st1.out, owning) {
                        Some(k) => Some(
                            (
                                with_def(
                                    st1,
                                    k,
                                    PrimDefView {
                                        variant_branch_arcs: st1.out[k].variant_branch_arcs.push(arc),
                                        ..st1.out[k]
                                    },
                                ),
                                j,
                            ),
                        ),
                        None => Some((st1, j)),
                    }
                } else {
                    Some((st1, j))
                }
            } else {
                None
            }
        } else {
            Some((st, i))
        },
        None => Some((st, i)),
    }
}

impl VariantBranchArc {
    fn apply_meta_exec(&mut self, ml: &String)
        requires
            branch_meta_line_ok(ml@),
        ensures
            final(self)@ == apply_branch_meta(old(self)@, ml@),
    {
        match parse_references_line(ml.as_str()) {
            Some((op, v)) => self.references.apply(op, v),
            None => {},
        }
        match parse_inherits_line(ml.as_str()) {
            Some((op, v)) => self.inherits.apply_inherits(op, v),
            None => {},
        }
        match parse_specializes_line(ml.as_str()) {
            Some((op, v)) => self.specializes.apply_inherits(op, v),
            None => {},
        }
        match parse_payloads_line(ml.as_str()) {
            Some((op, v)) => self.payloads.apply(op, v),
            None => {},
        }
        match parse_variant_selections_line(ml.as_str()) {
            Some(sels) => pairs_append(&mut self.variant_selections, sels),
            None => {},
        }
    }

    fn has_arcs_exec(&self) -> (r: bool)
        ensures
            r == has_arcs(self@),
    {
        !self.references.is_empty() || !self.inherits.is_empty() || !self.specializes.is_empty()
            || !self.payloads.is_empty() || self.variant_selections.len() > 0
    }
}

impl ParseState {
    fn branch_meta_exec(&mut self, lines: &Vec<String>, i: usize, line: &String, vbn: &Option<String>) -> (j: usize)
        requires
            i <= lines@.len(),
            branch_meta_step(texts(lines@), i as int, old(self)@, line@, crate::text::opt_text(*vbn)) is Some,
        ensures
            branch_meta_step(texts(lines@), i as int, old(self)@, line@, crate::text::opt_text(*vbn))
                == Some((final(self)@, j as int)),
            i <= j <= lines@.len(),
    {
        let branch = match vbn {
            Some(b) => b,
            None => return i,
        };
        let cs = crate::text::chars_of(line.as_str());
        if !contains_char_vec(&cs, '(') {
            return i;
        }
        let set_name = self.enclosing_set_exec();
        let owning = slash_join_exec(&self.scope);
        let (metas, j, closing) = meta_lines_exec(lines, i, line, true);
        if closing {
            let ghost bv = brace_views(self.braces@);
            self.braces.push(BraceKind::VariantBranchMeta(string_copy(&set_name), string_copy(branch)));
            proof {
                assert(brace_views(self.braces@) =~= bv.push(BraceView::VariantBranchMeta(set_name@, branch@)));
            }
        }
        let ghost mv = texts(metas@);
        let mut arc = VariantBranchArc {
            set_name,
            branch_name: string_copy(branch),
            references: ReferencesDef::new(),
            inherits: PathsDef::new(),
            specializes: PathsDef::new(),
            payloads: ReferencesDef::new(),
            variant_selections: Vec::new(),
        };
        let ghost a0 = arc@;
        proof {
            assert(pair_views(arc.variant_selections@) =~= Seq::<(Seq<char>, Seq<char>)>::empty());
            assert(a0 == empty_arc(arc.set_name@, branch@));
        }
        let mut q: usize = 0;
        proof {
            assert(mv.take(0) =~= Seq::<Seq<char>>::empty());
        }
        while q < metas.len()
            invariant
                q <= metas@.len(),
                mv == texts(metas@),
                forall|x: int| 0 <= x < metas@.len() ==> branch_meta_line_ok(#[trigger] mv[x]),
                arc@ == apply_branch_metas(a0, mv.take(q as int)),
            decreases metas.len() - q,
        {
            proof {
                assert(mv.take(q + 1).drop_last() =~= mv.take(q as int));
                assert(mv.take(q + 1).last() == metas@[q as int]@);
                assert(branch_meta_line_ok(mv[q as int]));
            }
            arc.apply_meta_exec(&metas[q]);
            q = q + 1;
        }
        proof {
            assert(mv.take(q as int) =~= mv);
        }
        if arc.has_arcs_exec() {
            match find_def_exec(&self.out, &owning) {
                Some(k) => {
                    let ghost old_out = self.out@;
                    let mut d = take_def(&mut self.out, k);
                    let ghost av = arc_views(d.variant_branch_arcs@);
                    let ghost arcv = arc@;
                    d.variant_branch_arcs.push(arc);
                    proof {
                        assert(arc_views(d.variant_branch_arcs@) =~= av.push(arcv));
                    }
                    self.out.insert(k, d);
                    proof {
                        lemma_def_views_replace(old_out, k as int, d);
                    }
                },
                None => {},
            }
        }
        j
    }
}

// ---------------------------------------------------------------------------
// Steps and the reader.
// ---------------------------------------------------------------------------

/// The innermost brace is a variant set.
pub open spec fn in_variant_set(braces: Seq<BraceView>) -> bool {
    braces.len() > 0 && braces.last() is VariantSet
}

/// Reads line `i` (trimmed) and any lines its blocks swallow, in the order:
/// attribute routing, time samples, prim header, header metadata,
/// relationship and child-order lines, variant set and branch headers,
/// branch metadata, then the line's braces. Gives the new state and the
/// next unread line; `None` when a list on the way cannot be sliced.
pub open spec fn step_spec(lines: Seq<Seq<char>>, i: int, st: ParseStateView) -> Option<(ParseStateView, int)> {
    let line = trim(lines[i]);
    if !rel_line_ok(line) {
        None
    } else {
        let st1 = route_attr(st, line);
        let (st2, i2) = samples_step(lines, i + 1, st1, line);
        let st3 = header_step(st2, line);
        match meta_step(lines, i2, st3, line) {
            None => None,
            Some((st4, i4)) => {
                let st5 = rel_steps(st4, line);
                let vsn = variant_set_start(line);
                let vbn = if vsn is None && st5.pending is None && in_variant_set(st5.braces) {
                    variant_branch_name(line)
                } else {
                    None
                };
                match branch_meta_step(lines, i4, st5, line, vbn) {
                    None => None,
                    Some((st6, i6)) => Some((braces_from(st6, line, 0, vsn, vbn), i6)),
                }
            },
        }
    }
}

/// Runs the steps from line `i` to the end; the records read, or `None`
/// when a step cannot be taken.
pub open spec fn read_from(lines: Seq<Seq<char>>, i: int, st: ParseStateView) -> Option<Seq<PrimDefView>>
    decreases lines.len() - i,
{
    if i < 0 || i >= lines.len() {
        Some(st.out)
    } else {
        match step_spec(lines, i, st) {
            Some((st2, j)) => if i < j <= lines.len() {
                read_from(lines, j, st2)
            } else {
                None
            },
            None => None,
        }
    }
}

/// The prim records of a layer's text.
pub open spec fn read_defs(text: Seq<char>) -> Option<Seq<PrimDefView>> {
    read_from(lines_of(text), 0, initial_state())
}

impl ParseState {
    fn in_variant_set_exec(&self) -> (r: bool)
        ensures
            r == in_variant_set(self@.braces),
    {
        let n = self.braces.len();
        if n == 0 {
            return false;
        }
        proof {
            assert(self@.braces.last() == self.braces@[n - 1]@);
        }
        match &self.braces[n - 1] {
            BraceKind::VariantSet(_) => true,
            _ => false,
        }
    }

    fn step_exec(&mut self, lines: &Vec<String>, i: usize) -> (j: usize)
        requires
            i < lines@.len(),
            step_spec(texts(lines@), i as int, old(self)@) is Some,
        ensures
            step_spec(texts(lines@), i as int, old(self)@) == Some((final(self)@, j as int)),
            i < j <= lines@.len(),
    {
        let ghost lv = texts(lines@);
        let n = lines.len();
        let cs = crate::text::chars_of(lines[i].as_str());
        let t = crate::text::trim_vec(&cs);
        let line = crate::text::text_of(&t);
        proof {
            assert(lv[i as int] == lines@[i as int]@);
            assert(line@ == trim(lv[i as int]));
        }
        route_attr_exec(self, &line);
        let i2 = self.samples_exec(lines, i + 1, &line);
        header_step_exec(self, &line);
        let i4 = self.meta_exec(lines, i2, &line);
        self.rel_steps_exec(&line);
        let vsn = parse_variant_set_start(line.as_str());
        let vbn = if vsn.is_none() && self.pending.is_none() && self.in_variant_set_exec() {
            parse_variant_branch_name(line.as_str())
        } else {
            None
        };
        let i6 = self.branch_meta_exec(lines, i4, &line, &vbn);
        self.braces_exec(&line, &vsn, &vbn);
        i6
    }
}

/// Reads the prim blocks of a layer's text (see the module documentation).
/// Every list the reader meets must be sliceable: `read_defs` is not `None`.
pub fn parse_prim_defs(text: &str) -> (r: Vec<PrimDef>)
    requires
        read_defs(text@) is Some,
    ensures
        read_defs(text@) == Some(def_views(r@)),
{
    let lines = lines_vec(text);
    let ghost lv = texts(lines@);
    let mut st = ParseState::new();
    let mut i: usize = 0;
    while i < lines.len()
        invariant
            i <= lines@.len(),
            lv == texts(lines@),
            lv == lines_of(text@),
            read_defs(text@) == read_from(lv, i as int, st@),
            read_from(lv, i as int, st@) is Some,
        decreases lines.len() - i,
    {
        let j = st.step_exec(&lines, i);
        i = j;
    }
    st.out
}

// ---------------------------------------------------------------------------
// What every step keeps.
// ---------------------------------------------------------------------------

/// `b` keeps the records of `a`: at least as many, and the first ones with
/// the same paths.
pub open spec fn keeps_records(a: Seq<PrimDefView>, b: Seq<PrimDefView>) -> bool {
    a.len() <= b.len() && forall|k: int| 0 <= k < a.len() ==> #[trigger] b[k].path == a[k].path
}

/// Every record path starts with `/`.
pub open spec fn paths_absolute(out: Seq<PrimDefView>) -> bool {
    forall|k: int| 0 <= k < out.len() ==> (#[trigger] out[k]).path.len() > 0 && out[k].path[0] == '/'
}

/// The step relation on records: `b` keeps the records of `a`, and
/// absolute paths stay absolute.
pub open spec fn grows(a: Seq<PrimDefView>, b: Seq<PrimDefView>) -> bool {
    keeps_records(a, b) && (paths_absolute(a) ==> paths_absolute(b))
}

proof fn lemma_grows_trans(a: Seq<PrimDefView>, b: Seq<PrimDefView>, c: Seq<PrimDefView>)
    requires
        grows(a, b),
        grows(b, c),
    ensures
        grows(a, c),
{
    assert forall|k: int| 0 <= k < a.len() implies #[trigger] c[k].path == a[k].path by {
        assert(c[k].path == b[k].path);
    }
}

proof fn lemma_with_def_grows(st: ParseStateView, k: int, d: PrimDefView)
    requires
        0 <= k < st.out.len(),
        d.path == st.out[k].path,
    ensures
        grows(st.out, with_def(st, k, d).out),
{
    let b = with_def(st, k, d).out;
    assert forall|q: int| 0 <= q < st.out.len() implies #[trigger] b[q].path == st.out[q].path by {}
    if paths_absolute(st.out) {
        assert forall|q: int| 0 <= q < b.len() implies (#[trigger] b[q]).path.len() > 0 && b[q].path[0]
            == '/' by {
            assert(b[q].path == st.out[q].path);
        }
    }
}

proof fn lemma_find_def_in_range(out: Seq<PrimDefView>, path: Seq<char>)
    ensures
        find_def(out, path) matches Some(k) ==> 0 <= k < out.len() && out[k].path == path,
    decreases out.len(),
{
    if out.len() > 0 && out.last().path != path {
        lemma_find_def_in_range(out.drop_last(), path);
    }
}

proof fn lemma_route_attr_grows(st: ParseStateView, line: Seq<char>)
    ensures
        grows(st.out, route_attr(st, line).out),
{
    match any_attr(line) {
        None => {},
        Some(attr) => {
            let vctx = current_variant_context(st.braces);
            if vctx is Some && prim_depth_in_variant(st.braces) == 0 {
                lemma_find_def_in_range(st.out, owning_prim_path(st.scope));
                match find_def(st.out, owning_prim_path(st.scope)) {
                    Some(k) => {
                        let ctx = vctx->0;
                        lemma_with_def_grows(
                            st,
                            k,
                            PrimDefView {
                                variant_fields: st.out[k].variant_fields.push((ctx.0, ctx.1, attr)),
                                ..st.out[k]
                            },
                        );
                    },
                    None => {},
                }
            } else if last_is_current(st) && !st.out.last().attrs.contains(attr) {
                lemma_with_def_grows(
                    st,
                    st.out.len() - 1,
                    PrimDefView { attrs: st.out.last().attrs.push(attr), ..st.out.last() },
                );
            }
        },
    }
}

proof fn lemma_samples_grows(lines: Seq<Seq<char>>, i: int, st: ParseStateView, line: Seq<char>)
    ensures
        grows(st.out, samples_step(lines, i, st, line).0.out),
{
    if contains_sub(line, ".timeSamples"@) && time_samples_attr(line) is Some && st.scope.len() > 0 {
        let attr = time_samples_attr(line)->0;
        let inline = inline_samples(line);
        let (samples, j) = if find_char(line, '}') is None || opt_after(
            rfind_char(line, '{'),
            rfind_char(line, '}'),
        ) {
            sample_lines(lines, i, inline)
        } else {
            (inline, i)
        };
        lemma_find_def_in_range(st.out, slash_join(st.scope));
        match find_def(st.out, slash_join(st.scope)) {
            Some(k) => {
                lemma_with_def_grows(
                    st,
                    k,
                    PrimDefView {
                        attrs: add_name(st.out[k].attrs, attr),
                        time_samples: st.out[k].time_samples.push((attr, samples)),
                        ..st.out[k]
                    },
                );
            },
            None => {},
        }
    }
}

proof fn lemma_rel_steps_grows(st: ParseStateView, line: Seq<char>)
    ensures
        grows(st.out, rel_steps(st, line).out),
{
    let st1 = custom_targets_step(st, line);
    if starts_with_text(line, "custom rel targets"@) && last_is_current(st) {
        lemma_with_def_grows(st, st.out.len() - 1, PrimDefView { declares_targets: true, ..st.out.last() });
    }
    let st2 = rel_targets_step(st1, line);
    match path_list_line(line, rel_targets_head(line_body(line))) {
        Some((op, specs)) => if last_is_current(st1) {
            lemma_with_def_grows(
                st1,
                st1.out.len() - 1,
                PrimDefView { targets: apply_targets(st1.out.last().targets, op, specs), ..st1.out.last() },
            );
        },
        None => {},
    }
    lemma_grows_trans(st.out, st1.out, st2.out);
    let st3 = named_rel_step(st2, line);
    match named_rel_line(line) {
        Some((name, op, specs)) => if last_is_current(st2) {
            let d = st2.out.last();
            lemma_with_def_grows(
                st2,
                st2.out.len() - 1,
                PrimDefView {
                    attrs: add_name(d.attrs, name),
                    named_rels: d.named_rels.push((name, op, specs)),
                    ..d
                },
            );
        },
        None => {},
    }
    lemma_grows_trans(st.out, st2.out, st3.out);
    let st4 = connection_step(st3, line);
    match connection_line(line) {
        Some((name, op, specs)) => if last_is_current(st3) {
            let d = st3.out.last();
            lemma_with_def_grows(
                st3,
                st3.out.len() - 1,
                PrimDefView {
                    attrs: add_name(d.attrs, name),
                    connections: d.connections.push((name, op, specs)),
                    ..d
                },
            );
        },
        None => {},
    }
    lemma_grows_trans(st.out, st3.out, st4.out);
    let st5 = reorder_step(st4, line);
    match reorder_name_children(line) {
        Some(order) => if last_is_current(st4) {
            lemma_with_def_grows(st4, st4.out.len() - 1, PrimDefView { prim_order: Some(order), ..st4.out.last() });
        },
        None => {},
    }
    lemma_grows_trans(st.out, st4.out, st5.out);
}

proof fn lemma_branch_meta_grows(
    lines: Seq<Seq<char>>,
    i: int,
    st: ParseStateView,
    line: Seq<char>,
    vbn: Option<Seq<char>>,
)
    ensures
        branch_meta_step(lines, i, st, line, vbn) matches Some((st2, j)) ==> grows(st.out, st2.out),
{
    match vbn {
        Some(branch) => if find_char(line, '(') is Some {
            let set_name = enclosing_set(st.braces);
            let owning = slash_join(st.scope);
            let (metas, j, closing) = meta_lines(lines, i, line, true);
            let st1 = if closing {
                ParseStateView {
                    braces: st.braces.push(BraceView::VariantBranchMeta(set_name, branch)),
                    ..st
                }
            } else {
                st
            };
            let arc = apply_branch_metas(empty_arc(set_name, branch), metas);
            lemma_find_def_in_range(st1.out, owning);
            match find_def(st1.out, owning) {
                Some(k) => {
                    lemma_with_def_grows(
                        st1,
                        k,
                        PrimDefView {
                            variant_branch_arcs: st1.out[k].variant_branch_arcs.push(arc),
                            ..st1.out[k]
                        },
                    );
                },
                None => {},
            }
        },
        None => {},
    }
}

proof fn lemma_braces_grows(
    st: ParseStateView,
    line: Seq<char>,
    k: int,
    vsn: Option<Seq<char>>,
    vbn: Option<Seq<char>>,
)
    ensures
        grows(st.out, braces_from(st, line, k, vsn, vbn).out),
    decreases line.len() - k,
{
    if 0 <= k < line.len() {
        let st2 = if line[k] == '{' {
            open_brace(st, vsn, vbn)
        } else if line[k] == '}' {
            close_brace(st)
        } else {
            st
        };
        if line[k] == '{' {
            match st.pending {
                Some(p) => {
                    let scope2 = st.scope.push(p.name);
                    assert(slash_join(scope2)[0] == '/');
                    assert(st2.out.last().path == slash_join(scope2));
                    assert forall|q: int| 0 <= q < st.out.len() implies #[trigger] st2.out[q].path
                        == st.out[q].path by {}
                    if paths_absolute(st.out) {
                        assert forall|q: int| 0 <= q < st2.out.len() implies (#[trigger] st2.out[q]).path.len()
                            > 0 && st2.out[q].path[0] == '/' by {
                            if q < st.out.len() {
                                assert(st2.out[q] == st.out[q]);
                            }
                        }
                    }
                },
                None => {},
            }
        }
        lemma_braces_grows(st2, line, k + 1, vsn, vbn);
        lemma_grows_trans(st.out, st2.out, braces_from(st2, line, k + 1, vsn, vbn).out);
    }
}

proof fn lemma_step_grows(lines: Seq<Seq<char>>, i: int, st: ParseStateView)
    ensures
        step_spec(lines, i, st) matches Some((st2, j)) ==> grows(st.out, st2.out),
{
    let line = trim(lines[i]);
    if rel_line_ok(line) {
        let st1 = route_attr(st, line);
        lemma_route_attr_grows(st, line);
        let (st2, i2) = samples_step(lines, i + 1, st1, line);
        lemma_samples_grows(lines, i + 1, st1, line);
        lemma_grows_trans(st.out, st1.out, st2.out);
        let st3 = header_step(st2, line);
        match meta_step(lines, i2, st3, line) {
            None => {},
            Some((st4, i4)) => {
                assert(st4.out == st3.out);
                let st5 = rel_steps(st4, line);
                lemma_rel_steps_grows(st4, line);
                lemma_grows_trans(st.out, st4.out, st5.out);
                let vsn = variant_set_start(line);
                let vbn = if vsn is None && st5.pending is None && in_variant_set(st5.braces) {
                    variant_branch_name(line)
                } else {
                    None
                };
                lemma_branch_meta_grows(lines, i4, st5, line, vbn);
                match branch_meta_step(lines, i4, st5, line, vbn) {
                    None => {},
                    Some((st6, i6)) => {
                        lemma_grows_trans(st.out, st5.out, st6.out);
                        lemma_braces_grows(st6, line, 0, vsn, vbn);
                        lemma_grows_trans(st.out, st6.out, braces_from(st6, line, 0, vsn, vbn).out);
                    },
                }
            },
        }
    }
}

proof fn lemma_read_from_grows(lines: Seq<Seq<char>>, i: int, st: ParseStateView)
    ensures
        read_from(lines, i, st) matches Some(out) ==> grows(st.out, out),
    decreases lines.len() - i,
{
    if 0 <= i < lines.len() {
        lemma_step_grows(lines, i, st);
        match step_spec(lines, i, st) {
            Some((st2, j)) => if i < j <= lines.len() {
                lemma_read_from_grows(lines, j, st2);
                if read_from(lines, j, st2) is Some {
                    lemma_grows_trans(st.out, st2.out, read_from(lines, j, st2)->0);
                }
            },
            None => {},
        }
    }
}

/// The reader never drops, reorders or renames a record: each step keeps
/// the records already made, with their paths, and whatever it appends has
/// an absolute path when the records before it do.
pub proof fn law_step_keeps_records(lines: Seq<Seq<char>>, i: int, st: ParseStateView)
    ensures
        step_spec(lines, i, st) matches Some((st2, j)) ==> keeps_records(st.out, st2.out) && (
        paths_absolute(st.out) ==> paths_absolute(st2.out)),
{
    lemma_step_grows(lines, i, st);
}

/// Every record the reader makes of a layer's text has an absolute path.
pub proof fn law_record_paths_absolute(text: Seq<char>)
    ensures
        read_defs(text) matches Some(out) ==> paths_absolute(out),
{
    lemma_read_from_grows(lines_of(text), 0, initial_state());
}

} // verus!
