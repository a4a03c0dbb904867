//! The decorator model: layout constraints and visual directives attached to
//! a type, a builder that assembles them, and a registry keyed by type name.
//!
//! Their YAML wire format (field names such as `hold`, `edgeColor`,
//! `toTag`) is applied where the decorators are serialized; here they are
//! plain values. An edge weight is held as the bit pattern of the `f64` it
//! stands for (`f64::to_bits`).

use vstd::prelude::*;

verus! {

/// The characters of an optional string.
pub open spec fn opt_str(o: Option<String>) -> Option<Seq<char>> {
    match o {
        Some(s) => Some(s@),
        None => None,
    }
}

/// A copy of an optional string.
pub fn copy_opt(o: &Option<String>) -> (r: Option<String>)
    ensures
        opt_str(r) == opt_str(*o),
{
    match o {
        Some(s) => Some(s.clone()),
        None => None,
    }
}

/// An optional borrowed string, owned.
pub fn own_opt(o: Option<&str>) -> (r: Option<String>)
    ensures
        opt_str(r) == match o {
            Some(s) => Some(s@),
            None => None::<Seq<char>>,
        },
{
    match o {
        Some(s) => Some(String::from_str(s)),
        None => None,
    }
}

// ---------------------------------------------------------------------------
// Constraints
// ---------------------------------------------------------------------------

/// A layout/structural constraint on the diagram.
#[derive(Debug, PartialEq)]
pub enum Constraint {
    /// Force one set of atoms to sit above/below/left/right of another.
    Orientation(OrientationConstraint),
    /// Align atoms along the horizontal or vertical axis.
    Align(AlignConstraint),
    /// Lay out atoms in a clockwise or counter-clockwise cycle.
    Cyclic(CyclicConstraint),
    /// Cluster atoms into named groups, either by selector or by field.
    Group(GroupConstraint),
    /// Hide atoms matching a selector.
    HideAtom(HideAtomDirective),
}

/// An `orientation:` constraint.
#[derive(Debug, PartialEq)]
pub struct OrientationConstraint {
    /// Inner orientation parameters.
    pub orientation: OrientationParams,
}

/// Parameters of an [`OrientationConstraint`].
#[derive(Debug, PartialEq)]
pub struct OrientationParams {
    /// Selector identifying the atoms the constraint applies to.
    pub selector: String,
    /// Direction tokens (e.g. `"above"`, `"below"`, `"left"`, `"right"`).
    pub directions: Vec<String>,
    /// When `true`, the constraint must not hold (`hold: never`).
    pub negated: bool,
}

/// An `align:` constraint.
#[derive(Debug, PartialEq)]
pub struct AlignConstraint {
    /// Inner align parameters.
    pub align: AlignParams,
}

/// Parameters of an [`AlignConstraint`].
#[derive(Debug, PartialEq)]
pub struct AlignParams {
    /// Selector identifying the atoms the constraint applies to.
    pub selector: String,
    /// Axis to align along (`"horizontal"` or `"vertical"`).
    pub direction: String,
    /// When `true`, the constraint must not hold (`hold: never`).
    pub negated: bool,
}

/// A `cyclic:` constraint.
#[derive(Debug, PartialEq)]
pub struct CyclicConstraint {
    /// Inner cyclic parameters.
    pub cyclic: CyclicParams,
}

/// Parameters of a [`CyclicConstraint`].
#[derive(Debug, PartialEq)]
pub struct CyclicParams {
    /// Selector identifying the relation that defines the cycle.
    pub selector: String,
    /// Cycle direction.
    pub direction: String,
    /// When `true`, the constraint must not hold (`hold: never`).
    pub negated: bool,
}

/// A `group:` constraint.
#[derive(Debug, PartialEq)]
pub struct GroupConstraint {
    /// Inner group parameters.
    pub group: GroupParams,
}

/// Parameters of a [`GroupConstraint`]: by relation field or by selector.
#[allow(inconsistent_fields)]
#[derive(Debug, PartialEq)]
pub enum GroupParams {
    /// Group atoms by following a relation field and indices.
    FieldBased {
        /// Name of the relation/field to group on.
        field: String,
        /// Tuple index used to identify the group key.
        group_on: u32,
        /// Tuple index whose atom is added to the group.
        add_to_group: u32,
        /// Optional selector restricting which tuples participate.
        selector: Option<String>,
        /// When `true`, the constraint must not hold (`hold: never`).
        negated: bool,
    },
    /// Group atoms matched by a selector under a single named cluster.
    SelectorBased {
        /// Selector identifying the atoms to cluster.
        selector: String,
        /// Group name shown on the diagram.
        name: String,
        /// When `true`, the constraint must not hold (`hold: never`).
        negated: bool,
    },
}

/// The content of a constraint, with its strings as characters.
#[allow(inconsistent_fields)]
pub enum ConstraintView {
    Orientation { selector: Seq<char>, directions: Seq<Seq<char>>, negated: bool },
    Align { selector: Seq<char>, direction: Seq<char>, negated: bool },
    Cyclic { selector: Seq<char>, direction: Seq<char>, negated: bool },
    GroupField {
        field: Seq<char>,
        group_on: u32,
        add_to_group: u32,
        selector: Option<Seq<char>>,
        negated: bool,
    },
    GroupSelector { selector: Seq<char>, name: Seq<char>, negated: bool },
    HideAtom { selector: Seq<char> },
}

impl View for Constraint {
    type V = ConstraintView;

    open spec fn view(&self) -> ConstraintView {
        match self {
            Constraint::Orientation(c) => ConstraintView::Orientation {
                selector: c.orientation.selector@,
                directions: c.orientation.directions@.map_values(|s: String| s@),
                negated: c.orientation.negated,
            },
            Constraint::Align(c) => ConstraintView::Align {
                selector: c.align.selector@,
                direction: c.align.direction@,
                negated: c.align.negated,
            },
            Constraint::Cyclic(c) => ConstraintView::Cyclic {
                selector: c.cyclic.selector@,
                direction: c.cyclic.direction@,
                negated: c.cyclic.negated,
            },
            Constraint::Group(g) => match &g.group {
                GroupParams::FieldBased { field, group_on, add_to_group, selector, negated } =>
                    ConstraintView::GroupField {
                    field: field@,
                    group_on: *group_on,
                    add_to_group: *add_to_group,
                    selector: opt_str(*selector),
                    negated: *negated,
                },
                GroupParams::SelectorBased { selector, name, negated } =>
                    ConstraintView::GroupSelector {
                    selector: selector@,
                    name: name@,
                    negated: *negated,
                },
            },
            Constraint::HideAtom(d) => ConstraintView::HideAtom { selector: d.hide_atom.selector@ },
        }
    }
}

/// A copy of a vector of strings.
fn copy_string_vec(v: &Vec<String>) -> (r: Vec<String>)
    ensures
        r@.map_values(|s: String| s@) == v@.map_values(|s: String| s@),
{
    let r = crate::jsondata::copy_strings(v);
    r
}

impl Constraint {
    /// A copy of this constraint.
    pub fn duplicate(&self) -> (r: Constraint)
        ensures
            r@ == self@,
    {
        match self {
            Constraint::Orientation(c) => Constraint::Orientation(
                OrientationConstraint {
                    orientation: OrientationParams {
                        selector: c.orientation.selector.clone(),
                        directions: copy_string_vec(&c.orientation.directions),
                        negated: c.orientation.negated,
                    },
                },
            ),
            Constraint::Align(c) => Constraint::Align(
                AlignConstraint {
                    align: AlignParams {
                        selector: c.align.selector.clone(),
                        direction: c.align.direction.clone(),
                        negated: c.align.negated,
                    },
                },
            ),
            Constraint::Cyclic(c) => Constraint::Cyclic(
                CyclicConstraint {
                    cyclic: CyclicParams {
                        selector: c.cyclic.selector.clone(),
                        direction: c.cyclic.direction.clone(),
                        negated: c.cyclic.negated,
                    },
                },
            ),
            Constraint::Group(g) => match &g.group {
                GroupParams::FieldBased { field, group_on, add_to_group, selector, negated } => {
                    Constraint::Group(
                        GroupConstraint {
                            group: GroupParams::FieldBased {
                                field: field.clone(),
                                group_on: *group_on,
                                add_to_group: *add_to_group,
                                selector: copy_opt(selector),
                                negated: *negated,
                            },
                        },
                    )
                },
                GroupParams::SelectorBased { selector, name, negated } => {
                    Constraint::Group(
                        GroupConstraint {
                            group: GroupParams::SelectorBased {
                                selector: selector.clone(),
                                name: name.clone(),
                                negated: *negated,
                            },
                        },
                    )
                },
            },
            Constraint::HideAtom(d) => Constraint::HideAtom(
                HideAtomDirective {
                    hide_atom: HideAtomParams { selector: d.hide_atom.selector.clone() },
                },
            ),
        }
    }
}

// ---------------------------------------------------------------------------
// Directives
// ---------------------------------------------------------------------------

/// A visual or behavioral directive applied to atoms/relations.
#[derive(Debug, PartialEq)]
pub enum Directive {
    /// Set atom fill colour.
    AtomColor(AtomColorDirective),
    /// Set explicit atom dimensions.
    Size(SizeDirective),
    /// Render atoms as an image icon.
    Icon(IconDirective),
    /// Style edges (colour, line style, weight, visibility, label).
    EdgeStyle(EdgeStyleDirective),
    /// Project atoms of a given signature out of the main view.
    Projection(ProjectionDirective),
    /// Promote a relation to an inline attribute label on its source atom.
    Attribute(AttributeDirective),
    /// Hide a field/relation from the diagram entirely.
    HideField(HideFieldDirective),
    /// Add a synthesized edge derived from a selector.
    InferredEdge(InferredEdgeDirective),
    /// Tag atoms with a computed attribute value.
    Tag(TagDirective),
    /// Boolean flag (e.g. `hideDisconnected`) toggled on the diagram.
    Flag(FlagDirective),
}

/// An `atomColor:` directive.
#[derive(Debug, PartialEq)]
pub struct AtomColorDirective {
    /// Inner atom-color parameters.
    pub atom_color: AtomColorParams,
}

/// Parameters of an [`AtomColorDirective`].
#[derive(Debug, PartialEq)]
pub struct AtomColorParams {
    /// Selector identifying the atoms to recolour.
    pub selector: String,
    /// CSS-style colour value.
    pub value: String,
}

/// A `size:` directive.
#[derive(Debug, PartialEq)]
pub struct SizeDirective {
    /// Inner size parameters.
    pub size: SizeParams,
}

/// Parameters of a [`SizeDirective`].
#[derive(Debug, PartialEq)]
pub struct SizeParams {
    /// Selector identifying the atoms to resize.
    pub selector: String,
    /// Height in diagram units.
    pub height: u32,
    /// Width in diagram units.
    pub width: u32,
}

/// An `icon:` directive.
#[derive(Debug, PartialEq)]
pub struct IconDirective {
    /// Inner icon parameters.
    pub icon: IconParams,
}

/// Parameters of an [`IconDirective`].
#[derive(Debug, PartialEq)]
pub struct IconParams {
    /// Selector identifying the atoms to render as icons.
    pub selector: String,
    /// Path or URL to the icon image.
    pub path: String,
    /// Whether to keep the atom label visible alongside the icon.
    pub show_labels: bool,
}

/// The edge-styling directive (wire key `edgeColor:`).
#[derive(Debug, PartialEq)]
pub struct EdgeStyleDirective {
    /// Inner edge-style parameters.
    pub edge_style: EdgeStyleParams,
}

/// Parameters of an [`EdgeStyleDirective`].
#[derive(Debug, PartialEq)]
pub struct EdgeStyleParams {
    /// Relation/field name whose edges this directive styles.
    pub field: String,
    /// Edge colour (CSS-style value).
    pub value: String,
    /// Optional selector restricting which edges are styled.
    pub selector: Option<String>,
    /// Optional value filter restricting which edges are styled.
    pub filter: Option<String>,
    /// Optional line style (e.g. `"solid"`, `"dashed"`, `"dotted"`).
    pub style: Option<String>,
    /// Optional line weight, as the bit pattern of an `f64`.
    pub weight_bits: Option<u64>,
    /// Whether to render the edge label.
    pub show_label: Option<bool>,
    /// Whether the edge is hidden entirely.
    pub hidden: Option<bool>,
}

/// A `projection:` directive.
#[derive(Debug, PartialEq)]
pub struct ProjectionDirective {
    /// Inner projection parameters.
    pub projection: ProjectionParams,
}

/// Parameters of a [`ProjectionDirective`].
#[derive(Debug, PartialEq)]
pub struct ProjectionParams {
    /// Signature/type name to project out of the main view.
    pub sig: String,
}

/// An `attribute:` directive.
#[derive(Debug, PartialEq)]
pub struct AttributeDirective {
    /// Inner attribute parameters.
    pub attribute: AttributeParams,
}

/// Parameters of an [`AttributeDirective`].
#[derive(Debug, PartialEq)]
pub struct AttributeParams {
    /// Relation/field name to promote to an inline attribute label.
    pub field: String,
    /// Optional selector restricting where the attribute is shown.
    pub selector: Option<String>,
}

/// A `hideField:` directive.
#[derive(Debug, PartialEq)]
pub struct HideFieldDirective {
    /// Inner hide-field parameters.
    pub hide_field: HideFieldParams,
}

/// Parameters of a [`HideFieldDirective`].
#[derive(Debug, PartialEq)]
pub struct HideFieldParams {
    /// Relation/field name to hide.
    pub field: String,
    /// Optional selector restricting where the field is hidden.
    pub selector: Option<String>,
}

/// A `hideAtom:` rule; a decorator set files it among its constraints.
#[derive(Debug, PartialEq)]
pub struct HideAtomDirective {
    /// Inner hide-atom parameters.
    pub hide_atom: HideAtomParams,
}

/// Parameters of a [`HideAtomDirective`].
#[derive(Debug, PartialEq)]
pub struct HideAtomParams {
    /// Selector identifying the atoms to hide.
    pub selector: String,
}

/// An `inferredEdge:` directive.
#[derive(Debug, PartialEq)]
pub struct InferredEdgeDirective {
    /// Inner inferred-edge parameters.
    pub inferred_edge: InferredEdgeParams,
}

/// Parameters of an [`InferredEdgeDirective`].
#[derive(Debug, PartialEq)]
pub struct InferredEdgeParams {
    /// Name shown on the synthesized edge.
    pub name: String,
    /// Selector defining which atom pairs are connected.
    pub selector: String,
}

/// A `tag:` directive: computed attributes from an n-ary selector.
#[derive(Debug, PartialEq)]
pub struct TagDirective {
    /// Inner tag parameters.
    pub tag: TagParams,
}

/// Parameters of a [`TagDirective`].
#[derive(Debug, PartialEq)]
pub struct TagParams {
    /// Selector identifying which atoms receive the tag (`toTag`).
    pub to_tag: String,
    /// Attribute name to display on the tagged atoms.
    pub name: String,
    /// Expression (n-ary selector) evaluated to produce the attribute value.
    pub value: String,
}

/// A boolean diagram flag (e.g. `hideDisconnected`).
#[derive(Debug, PartialEq)]
pub struct FlagDirective {
    /// Flag name to enable.
    pub flag: String,
}

/// The content of a directive, with its strings as characters.
#[allow(inconsistent_fields)]
pub enum DirectiveView {
    AtomColor { selector: Seq<char>, value: Seq<char> },
    Size { selector: Seq<char>, height: u32, width: u32 },
    Icon { selector: Seq<char>, path: Seq<char>, show_labels: bool },
    EdgeStyle {
        field: Seq<char>,
        value: Seq<char>,
        selector: Option<Seq<char>>,
        filter: Option<Seq<char>>,
        style: Option<Seq<char>>,
        weight_bits: Option<u64>,
        show_label: Option<bool>,
        hidden: Option<bool>,
    },
    Projection { sig: Seq<char> },
    Attribute { field: Seq<char>, selector: Option<Seq<char>> },
    HideField { field: Seq<char>, selector: Option<Seq<char>> },
    InferredEdge { name: Seq<char>, selector: Seq<char> },
    Tag { to_tag: Seq<char>, name: Seq<char>, value: Seq<char> },
    Flag { flag: Seq<char> },
}

impl View for Directive {
    type V = DirectiveView;

    open spec fn view(&self) -> DirectiveView {
        match self {
            Directive::AtomColor(d) => DirectiveView::AtomColor {
                selector: d.atom_color.selector@,
                value: d.atom_color.value@,
            },
            Directive::Size(d) => DirectiveView::Size {
                selector: d.size.selector@,
                height: d.size.height,
                width: d.size.width,
            },
            Directive::Icon(d) => DirectiveView::Icon {
                selector: d.icon.selector@,
                path: d.icon.path@,
                show_labels: d.icon.show_labels,
            },
            Directive::EdgeStyle(d) => DirectiveView::EdgeStyle {
                field: d.edge_style.field@,
                value: d.edge_style.value@,
                selector: opt_str(d.edge_style.selector),
                filter: opt_str(d.edge_style.filter),
                style: opt_str(d.edge_style.style),
                weight_bits: d.edge_style.weight_bits,
                show_label: d.edge_style.show_label,
                hidden: d.edge_style.hidden,
            },
            Directive::Projection(d) => DirectiveView::Projection { sig: d.projection.sig@ },
            Directive::Attribute(d) => DirectiveView::Attribute {
                field: d.attribute.field@,
                selector: opt_str(d.attribute.selector),
            },
            Directive::HideField(d) => DirectiveView::HideField {
                field: d.hide_field.field@,
                selector: opt_str(d.hide_field.selector),
            },
            Directive::InferredEdge(d) => DirectiveView::InferredEdge {
                name: d.inferred_edge.name@,
                selector: d.inferred_edge.selector@,
            },
            Directive::Tag(d) => DirectiveView::Tag {
                to_tag: d.tag.to_tag@,
                name: d.tag.name@,
                value: d.tag.value@,
            },
            Directive::Flag(d) => DirectiveView::Flag { flag: d.flag@ },
        }
    }
}

impl Directive {
    /// A copy of this directive.
    pub fn duplicate(&self) -> (r: Directive)
        ensures
            r@ == self@,
    {
        match self {
            Directive::AtomColor(d) => Directive::AtomColor(
                AtomColorDirective {
                    atom_color: AtomColorParams {
                        selector: d.atom_color.selector.clone(),
                        value: d.atom_color.value.clone(),
                    },
                },
            ),
            Directive::Size(d) => Directive::Size(
                SizeDirective {
                    size: SizeParams {
                        selector: d.size.selector.clone(),
                        height: d.size.height,
                        width: d.size.width,
                    },
                },
            ),
            Directive::Icon(d) => Directive::Icon(
                IconDirective {
                    icon: IconParams {
                        selector: d.icon.selector.clone(),
                        path: d.icon.path.clone(),
                        show_labels: d.icon.show_labels,
                    },
                },
            ),
            Directive::EdgeStyle(d) => Directive::EdgeStyle(
                EdgeStyleDirective {
                    edge_style: EdgeStyleParams {
                        field: d.edge_style.field.clone(),
                        value: d.edge_style.value.clone(),
                        selector: copy_opt(&d.edge_style.selector),
                        filter: copy_opt(&d.edge_style.filter),
                        style: copy_opt(&d.edge_style.style),
                        weight_bits: d.edge_style.weight_bits,
                        show_label: d.edge_style.show_label,
                        hidden: d.edge_style.hidden,
                    },
                },
            ),
            Directive::Projection(d) => Directive::Projection(
                ProjectionDirective { projection: ProjectionParams { sig: d.projection.sig.clone() } },
            ),
            Directive::Attribute(d) => Directive::Attribute(
                AttributeDirective {
                    attribute: AttributeParams {
                        field: d.attribute.field.clone(),
                        selector: copy_opt(&d.attribute.selector),
                    },
                },
            ),
            Directive::HideField(d) => Directive::HideField(
                HideFieldDirective {
                    hide_field: HideFieldParams {
                        field: d.hide_field.field.clone(),
                        selector: copy_opt(&d.hide_field.selector),
                    },
                },
            ),
            Directive::InferredEdge(d) => Directive::InferredEdge(
                InferredEdgeDirective {
                    inferred_edge: InferredEdgeParams {
                        name: d.inferred_edge.name.clone(),
                        selector: d.inferred_edge.selector.clone(),
                    },
                },
            ),
            Directive::Tag(d) => Directive::Tag(
                TagDirective {
                    tag: TagParams {
                        to_tag: d.tag.to_tag.clone(),
                        name: d.tag.name.clone(),
                        value: d.tag.value.clone(),
                    },
                },
            ),
            Directive::Flag(d) => Directive::Flag(FlagDirective { flag: d.flag.clone() }),
        }
    }
}

// ---------------------------------------------------------------------------
// Decorator sets
// ---------------------------------------------------------------------------

/// All decorators attached to a type or instance.
#[derive(Debug, PartialEq)]
pub struct SpytialDecorators {
    /// Layout/structural constraints.
    pub constraints: Vec<Constraint>,
    /// Visual/behavioral directives.
    pub directives: Vec<Directive>,
}

/// The content of a decorator set.
pub struct DecoratorsView {
    pub constraints: Seq<ConstraintView>,
    pub directives: Seq<DirectiveView>,
}

impl View for SpytialDecorators {
    type V = DecoratorsView;

    open spec fn view(&self) -> DecoratorsView {
        DecoratorsView {
            constraints: self.constraints@.map_values(|c: Constraint| c@),
            directives: self.directives@.map_values(|d: Directive| d@),
        }
    }
}

/// The decorator set with no constraints and no directives.
pub open spec fn empty_decorators() -> DecoratorsView {
    DecoratorsView { constraints: Seq::empty(), directives: Seq::empty() }
}

/// `a` with `b`'s constraints and directives appended, in order.
pub open spec fn merged(a: DecoratorsView, b: DecoratorsView) -> DecoratorsView {
    DecoratorsView {
        constraints: a.constraints + b.constraints,
        directives: a.directives + b.directives,
    }
}

impl Default for SpytialDecorators {
    /// The empty decorator set.
    fn default() -> (r: SpytialDecorators)
        ensures
            r@ == empty_decorators(),
    {
        let r = SpytialDecorators { constraints: Vec::new(), directives: Vec::new() };
        assert(r@.constraints =~= Seq::<ConstraintView>::empty());
        assert(r@.directives =~= Seq::<DirectiveView>::empty());
        r
    }
}

/// Appends copies of `src`'s constraints to `dst`.
fn append_constraints(dst: &mut Vec<Constraint>, src: &Vec<Constraint>)
    ensures
        final(dst)@.map_values(|c: Constraint| c@) == old(dst)@.map_values(|c: Constraint| c@)
            + src@.map_values(|c: Constraint| c@),
{
    let ghost start = dst@.map_values(|c: Constraint| c@);
    let mut i: usize = 0;
    while i < src.len()
        invariant
            i <= src@.len(),
            dst@.map_values(|c: Constraint| c@) == start + src@.map_values(|c: Constraint| c@).take(
                i as int,
            ),
        decreases src.len() - i,
    {
        let ghost prev = dst@;
        dst.push(src[i].duplicate());
        assert(dst@.map_values(|c: Constraint| c@) =~= prev.map_values(|c: Constraint| c@).push(src@[i as int]@));
        assert(src@.map_values(|c: Constraint| c@).take(i + 1) =~= src@.map_values(
            |c: Constraint| c@,
        ).take(i as int).push(src@[i as int]@));
        assert(dst@.map_values(|c: Constraint| c@) =~= start + src@.map_values(
            |c: Constraint| c@,
        ).take(i + 1));
        i = i + 1;
    }
    assert(src@.map_values(|c: Constraint| c@).take(src@.len() as int) =~= src@.map_values(
        |c: Constraint| c@,
    ));
}

/// Appends copies of `src`'s directives to `dst`.
fn append_directives(dst: &mut Vec<Directive>, src: &Vec<Directive>)
    ensures
        final(dst)@.map_values(|d: Directive| d@) == old(dst)@.map_values(|d: Directive| d@)
            + src@.map_values(|d: Directive| d@),
{
    let ghost start = dst@.map_values(|d: Directive| d@);
    let mut i: usize = 0;
    while i < src.len()
        invariant
            i <= src@.len(),
            dst@.map_values(|d: Directive| d@) == start + src@.map_values(|d: Directive| d@).take(
                i as int,
            ),
        decreases src.len() - i,
    {
        let ghost prev = dst@;
        dst.push(src[i].duplicate());
        assert(dst@.map_values(|d: Directive| d@) =~= prev.map_values(|d: Directive| d@).push(src@[i as int]@));
        assert(src@.map_values(|d: Directive| d@).take(i + 1) =~= src@.map_values(
            |d: Directive| d@,
        ).take(i as int).push(src@[i as int]@));
        assert(dst@.map_values(|d: Directive| d@) =~= start + src@.map_values(
            |d: Directive| d@,
        ).take(i + 1));
        i = i + 1;
    }
    assert(src@.map_values(|d: Directive| d@).take(src@.len() as int) =~= src@.map_values(
        |d: Directive| d@,
    ));
}

impl SpytialDecorators {
    /// A copy of this decorator set.
    pub fn duplicate(&self) -> (r: SpytialDecorators)
        ensures
            r@ == self@,
    {
        let mut r = SpytialDecorators::default();
        append_constraints(&mut r.constraints, &self.constraints);
        append_directives(&mut r.directives, &self.directives);
        assert(r@.constraints =~= self@.constraints);
        assert(r@.directives =~= self@.directives);
        r
    }

    /// Appends copies of `other`'s constraints and directives, in order.
    pub fn append(&mut self, other: &SpytialDecorators)
        ensures
            final(self)@ == merged(old(self)@, other@),
    {
        append_constraints(&mut self.constraints, &other.constraints);
        append_directives(&mut self.directives, &other.directives);
    }
}

/// Whether a constraint is positive, in which case its `hold` key is left
/// out of the wire format.
pub fn is_not_negated(negated: &bool) -> (r: bool)
    ensures
        r == !*negated,
{
    !*negated
}

// ---------------------------------------------------------------------------
// Types that carry decorators
// ---------------------------------------------------------------------------

/// Implemented by types with decorators (usually through the derive).
///
/// `decorators()` returns the full set declared on the type and, for a
/// derived implementation, on its nested field types.
pub trait HasSpytialDecorators {
    /// The full decorator set of this type.
    fn decorators() -> SpytialDecorators;
}

/// A probe for the decorators of a type that may or may not implement
/// [`HasSpytialDecorators`]: the inherent `get` (the type's own decorators)
/// is chosen where the type implements it, [`DefaultDecorators::get`] (no
/// decorators) everywhere else.
pub struct DecoProbe<T>(pub std::marker::PhantomData<T>);

impl<T: HasSpytialDecorators> DecoProbe<T> {
    /// The decorators of `T`.
    pub fn get(self) -> (r: SpytialDecorators)
        ensures
            call_ensures(T::decorators, (), r),
    {
        T::decorators()
    }
}

/// The fallback of [`DecoProbe`] for types without decorators.
pub trait DefaultDecorators {
    /// No decorators.
    fn get(self) -> (r: SpytialDecorators)
        ensures
            r@ == empty_decorators(),
    ;
}

impl<T> DefaultDecorators for DecoProbe<T> {
    fn get(self) -> (r: SpytialDecorators) {
        SpytialDecorators::default()
    }
}

// ---------------------------------------------------------------------------
// Registry keyed by type name
// ---------------------------------------------------------------------------

/// Merging decorator sets is associative with the empty set as identity,
/// so building a set in pieces gives the set built in one go.
pub proof fn lemma_merged_monoid(a: DecoratorsView, b: DecoratorsView, c: DecoratorsView)
    ensures
        merged(empty_decorators(), a) == a,
        merged(a, empty_decorators()) == a,
        merged(merged(a, b), c) == merged(a, merged(b, c)),
{
    assert(merged(empty_decorators(), a).constraints =~= a.constraints);
    assert(merged(empty_decorators(), a).directives =~= a.directives);
    assert(merged(a, empty_decorators()).constraints =~= a.constraints);
    assert(merged(a, empty_decorators()).directives =~= a.directives);
    assert(merged(merged(a, b), c).constraints =~= merged(a, merged(b, c)).constraints);
    assert(merged(merged(a, b), c).directives =~= merged(a, merged(b, c)).directives);
}

/// The decorators registered for each type name.
pub struct TypeRegistry {
    entries: Vec<(String, SpytialDecorators)>,
}

/// The registered names and decorator sets, in registration order.
pub open spec fn registry_names(e: Seq<(String, SpytialDecorators)>) -> Seq<Seq<char>> {
    e.map_values(|p: (String, SpytialDecorators)| p.0@)
}

/// Index of the entry registered under `name`, if any.
pub open spec fn registry_find(names: Seq<Seq<char>>, name: Seq<char>) -> Option<int>
    decreases names.len(),
{
    if names.len() == 0 {
        None
    } else if names.last() == name {
        Some(names.len() - 1)
    } else {
        registry_find(names.drop_last(), name)
    }
}

/// The content of a registry: each name with its decorator set.
pub struct RegistryView {
    pub names: Seq<Seq<char>>,
    pub sets: Seq<DecoratorsView>,
}

/// The registry with nothing registered.
pub open spec fn empty_registry() -> RegistryView {
    RegistryView { names: Seq::empty(), sets: Seq::empty() }
}

/// The decorators registered under `name` in `r`, if any.
pub open spec fn registry_lookup(r: RegistryView, name: Seq<char>) -> Option<DecoratorsView> {
    match registry_find(r.names, name) {
        Some(i) => Some(r.sets[i]),
        None => None,
    }
}

/// `r` with `name` now mapped to `d`: replaced in place when registered,
/// appended otherwise.
pub open spec fn registry_insert(r: RegistryView, name: Seq<char>, d: DecoratorsView) -> RegistryView {
    match registry_find(r.names, name) {
        Some(i) => RegistryView { names: r.names, sets: r.sets.update(i, d) },
        None => RegistryView { names: r.names.push(name), sets: r.sets.push(d) },
    }
}

proof fn lemma_registry_find(names: Seq<Seq<char>>, name: Seq<char>)
    ensures
        match registry_find(names, name) {
            Some(i) => 0 <= i < names.len() && names[i] == name && forall|j: int|
                i < j < names.len() ==> names[j] != name,
            None => forall|j: int| 0 <= j < names.len() ==> names[j] != name,
        },
    decreases names.len(),
{
    if names.len() > 0 && names.last() != name {
        lemma_registry_find(names.drop_last(), name);
        let d = names.drop_last();
        assert forall|j: int| 0 <= j < d.len() implies d[j] == names[j] by {}
    }
}

/// A lookup gives back the decorators last registered under that name,
/// and registering under one name leaves every other name's lookup as it
/// was.
pub proof fn lemma_registry_read_after_write(
    r: RegistryView,
    name: Seq<char>,
    d: DecoratorsView,
    other: Seq<char>,
)
    requires
        r.names.len() == r.sets.len(),
    ensures
        registry_lookup(registry_insert(r, name, d), name) == Some(d),
        other != name ==> registry_lookup(registry_insert(r, name, d), other) == registry_lookup(
            r,
            other,
        ),
        registry_insert(r, name, d).names.len() == registry_insert(r, name, d).sets.len(),
{
    let w = registry_insert(r, name, d);
    lemma_registry_find(r.names, name);
    lemma_registry_find(w.names, name);
    lemma_registry_find(r.names, other);
    lemma_registry_find(w.names, other);
    match registry_find(r.names, name) {
        Some(i) => {
            assert(w.names == r.names);
        },
        None => {
            let n = r.names.len() as int;
            assert(w.names[n] == name);
            if other != name {
                match registry_find(r.names, other) {
                    Some(k) => {
                        assert(w.names[k] == other);
                    },
                    None => {},
                }
                match registry_find(w.names, other) {
                    Some(k) => {
                        assert(k != n);
                        assert(r.names[k] == other);
                    },
                    None => {},
                }
            }
        },
    }
}

impl View for TypeRegistry {
    type V = RegistryView;

    closed spec fn view(&self) -> RegistryView {
        RegistryView {
            names: registry_names(self.entries@),
            sets: self.entries@.map_values(|p: (String, SpytialDecorators)| p.1@),
        }
    }
}

impl TypeRegistry {
    /// A registry holds one decorator set per registered name, so the
    /// read-after-write law applies to every registry.
    pub proof fn lemma_view_lengths(&self)
        ensures
            self@.names.len() == self@.sets.len(),
    {
    }

    /// A registry with nothing registered.
    pub fn new() -> (r: TypeRegistry)
        ensures
            r@ == empty_registry(),
    {
        let r = TypeRegistry { entries: Vec::new() };
        assert(r@.names =~= Seq::<Seq<char>>::empty());
        assert(r@.sets =~= Seq::<DecoratorsView>::empty());
        r
    }

    fn find(&self, name: &str) -> (r: Option<usize>)
        ensures
            r matches Some(i) ==> registry_find(self@.names, name@) == Some(i as int) && i
                < self.entries@.len() && self@.names[i as int] == name@,
            r is None ==> registry_find(self@.names, name@) is None,
    {
        proof {
            lemma_registry_find(self@.names, name@);
        }
        let mut i = self.entries.len();
        assert(self@.names.take(i as int) =~= self@.names);
        while i > 0
            invariant
                i <= self.entries@.len(),
                self@.names.len() == self.entries@.len(),
                registry_find(self@.names, name@) == registry_find(self@.names.take(i as int), name@),
            decreases i,
        {
            let ghost t = self@.names.take(i as int);
            assert(t.last() == self.entries@[i - 1].0@);
            assert(t.drop_last() =~= self@.names.take(i - 1));
            if same_name(&self.entries[i - 1].0, name) {
                return Some(i - 1);
            }
            i = i - 1;
        }
        assert(self@.names.take(0) =~= Seq::<Seq<char>>::empty());
        None
    }

    /// Registers `decorators` for `ty_name`, replacing any earlier
    /// registration of that name.
    pub fn register(&mut self, ty_name: &str, decorators: SpytialDecorators)
        ensures
            final(self)@ == registry_insert(old(self)@, ty_name@, decorators@),
            registry_lookup(final(self)@, ty_name@) == Some(decorators@),
    {
        proof {
            self.lemma_view_lengths();
            lemma_registry_read_after_write(self@, ty_name@, decorators@, ty_name@);
        }
        match self.find(ty_name) {
            Some(i) => {
                let ghost before = self.entries@;
                self.entries.set(i, (String::from_str(ty_name), decorators));
                proof {
                    lemma_registry_find(registry_names(before), ty_name@);
                }
                assert(self@.names =~= old(self)@.names);
                assert(self@.sets =~= old(self)@.sets.update(i as int, decorators@));
            },
            None => {
                self.entries.push((String::from_str(ty_name), decorators));
                assert(self@.names =~= old(self)@.names.push(ty_name@));
                assert(self@.sets =~= old(self)@.sets.push(decorators@));
            },
        }
    }

    /// A copy of the whole registry.
    pub fn duplicate(&self) -> (r: TypeRegistry)
        ensures
            r@ == self@,
    {
        let mut entries: Vec<(String, SpytialDecorators)> = Vec::new();
        let mut i: usize = 0;
        while i < self.entries.len()
            invariant
                i <= self.entries@.len(),
                registry_names(entries@) == registry_names(self.entries@).take(i as int),
                entries@.map_values(|p: (String, SpytialDecorators)| p.1@) == self.entries@.map_values(
                    |p: (String, SpytialDecorators)| p.1@,
                ).take(i as int),
            decreases self.entries.len() - i,
        {
            let ghost prev = entries@;
            let e = (self.entries[i].0.clone(), self.entries[i].1.duplicate());
            entries.push(e);
            assert(registry_names(entries@) =~= registry_names(prev).push(self.entries@[i as int].0@));
            assert(registry_names(self.entries@).take(i + 1) =~= registry_names(self.entries@).take(
                i as int,
            ).push(self.entries@[i as int].0@));
            assert(entries@.map_values(|p: (String, SpytialDecorators)| p.1@) =~= prev.map_values(
                |p: (String, SpytialDecorators)| p.1@,
            ).push(self.entries@[i as int].1@));
            assert(self.entries@.map_values(|p: (String, SpytialDecorators)| p.1@).take(i + 1)
                =~= self.entries@.map_values(|p: (String, SpytialDecorators)| p.1@).take(
                i as int,
            ).push(self.entries@[i as int].1@));
            i = i + 1;
        }
        assert(registry_names(self.entries@).take(self.entries@.len() as int) =~= registry_names(
            self.entries@,
        ));
        assert(self.entries@.map_values(|p: (String, SpytialDecorators)| p.1@).take(
            self.entries@.len() as int,
        ) =~= self.entries@.map_values(|p: (String, SpytialDecorators)| p.1@));
        TypeRegistry { entries }
    }

    /// A copy of the decorators registered for `ty_name`, if any.
    pub fn get(&self, ty_name: &str) -> (r: Option<SpytialDecorators>)
        ensures
            match r {
                Some(d) => registry_lookup(self@, ty_name@) == Some(d@),
                None => registry_lookup(self@, ty_name@) is None,
            },
    {
        match self.find(ty_name) {
            Some(i) => Some(self.entries[i].1.duplicate()),
            None => None,
        }
    }
}

fn same_name(a: &String, b: &str) -> (r: bool)
    ensures
        r == (a@ == b@),
{
    *a == String::from_str(b)
}

// ---------------------------------------------------------------------------
// Builder
// ---------------------------------------------------------------------------

/// Programmatic builder for a [`SpytialDecorators`] set.
#[derive(Debug)]
pub struct SpytialDecoratorsBuilder {
    constraints: Vec<Constraint>,
    directives: Vec<Directive>,
}

impl View for SpytialDecoratorsBuilder {
    type V = DecoratorsView;

    closed spec fn view(&self) -> DecoratorsView {
        DecoratorsView {
            constraints: self.constraints@.map_values(|c: Constraint| c@),
            directives: self.directives@.map_values(|d: Directive| d@),
        }
    }
}

/// `b` with one more constraint.
pub open spec fn with_constraint(b: DecoratorsView, c: ConstraintView) -> DecoratorsView {
    DecoratorsView { constraints: b.constraints.push(c), directives: b.directives }
}

/// `b` with one more directive.
pub open spec fn with_directive(b: DecoratorsView, d: DirectiveView) -> DecoratorsView {
    DecoratorsView { constraints: b.constraints, directives: b.directives.push(d) }
}

/// The characters of each string slice.
pub open spec fn str_views(v: Seq<&str>) -> Seq<Seq<char>> {
    v.map_values(|s: &str| s@)
}

fn own_strings(v: &Vec<&str>) -> (r: Vec<String>)
    ensures
        r@.map_values(|s: String| s@) == str_views(v@),
{
    let mut r: Vec<String> = Vec::new();
    let mut i: usize = 0;
    while i < v.len()
        invariant
            i <= v@.len(),
            r@.map_values(|s: String| s@) == str_views(v@).take(i as int),
        decreases v.len() - i,
    {
        let ghost prev = r@;
        r.push(String::from_str(v[i]));
        assert(r@.map_values(|s: String| s@) =~= prev.map_values(|s: String| s@).push(v@[i as int]@));
        assert(str_views(v@).take(i + 1) =~= str_views(v@).take(i as int).push(v@[i as int]@));
        i = i + 1;
    }
    assert(str_views(v@).take(v@.len() as int) =~= str_views(v@));
    r
}

impl Default for SpytialDecoratorsBuilder {
    /// A builder with no constraints and no directives.
    fn default() -> (r: SpytialDecoratorsBuilder)
        ensures
            r@ == empty_decorators(),
    {
        SpytialDecoratorsBuilder::new()
    }
}

impl SpytialDecoratorsBuilder {
    /// A builder with no constraints and no directives.
    pub fn new() -> (r: SpytialDecoratorsBuilder)
        ensures
            r@ == empty_decorators(),
    {
        let r = SpytialDecoratorsBuilder { constraints: Vec::new(), directives: Vec::new() };
        assert(r@.constraints =~= Seq::<ConstraintView>::empty());
        assert(r@.directives =~= Seq::<DirectiveView>::empty());
        r
    }

    fn push_constraint(self, c: Constraint) -> (r: SpytialDecoratorsBuilder)
        ensures
            r@ == with_constraint(self@, c@),
    {
        let mut b = self;
        b.constraints.push(c);
        assert(b@.constraints =~= self@.constraints.push(c@));
        b
    }

    fn push_directive(self, d: Directive) -> (r: SpytialDecoratorsBuilder)
        ensures
            r@ == with_directive(self@, d@),
    {
        let mut b = self;
        b.directives.push(d);
        assert(b@.directives =~= self@.directives.push(d@));
        b
    }

    /// Adds an orientation constraint.
    pub fn orientation(self, selector: &str, directions: Vec<&str>, negated: bool) -> (r:
        SpytialDecoratorsBuilder)
        ensures
            r@ == with_constraint(
                self@,
                ConstraintView::Orientation {
                    selector: selector@,
                    directions: str_views(directions@),
                    negated,
                },
            ),
    {
        self.push_constraint(
            Constraint::Orientation(
                OrientationConstraint {
                    orientation: OrientationParams {
                        selector: String::from_str(selector),
                        directions: own_strings(&directions),
                        negated,
                    },
                },
            ),
        )
    }

    /// Adds an align constraint.
    pub fn align(self, selector: &str, direction: &str, negated: bool) -> (r:
        SpytialDecoratorsBuilder)
        ensures
            r@ == with_constraint(
                self@,
                ConstraintView::Align { selector: selector@, direction: direction@, negated },
            ),
    {
        self.push_constraint(
            Constraint::Align(
                AlignConstraint {
                    align: AlignParams {
                        selector: String::from_str(selector),
                        direction: String::from_str(direction),
                        negated,
                    },
                },
            ),
        )
    }

    /// Adds a cyclic constraint.
    pub fn cyclic(self, selector: &str, direction: &str, negated: bool) -> (r:
        SpytialDecoratorsBuilder)
        ensures
            r@ == with_constraint(
                self@,
                ConstraintView::Cyclic { selector: selector@, direction: direction@, negated },
            ),
    {
        self.push_constraint(
            Constraint::Cyclic(
                CyclicConstraint {
                    cyclic: CyclicParams {
                        selector: String::from_str(selector),
                        direction: String::from_str(direction),
                        negated,
                    },
                },
            ),
        )
    }

    /// Adds a field-based group constraint.
    pub fn group_field_based(
        self,
        field: &str,
        group_on: u32,
        add_to_group: u32,
        selector: Option<&str>,
        negated: bool,
    ) -> (r: SpytialDecoratorsBuilder)
        ensures
            r@ == with_constraint(
                self@,
                ConstraintView::GroupField {
                    field: field@,
                    group_on,
                    add_to_group,
                    selector: match selector {
                        Some(s) => Some(s@),
                        None => None,
                    },
                    negated,
                },
            ),
    {
        self.push_constraint(
            Constraint::Group(
                GroupConstraint {
                    group: GroupParams::FieldBased {
                        field: String::from_str(field),
                        group_on,
                        add_to_group,
                        selector: own_opt(selector),
                        negated,
                    },
                },
            ),
        )
    }

    /// Adds a selector-based group constraint.
    pub fn group_selector_based(self, selector: &str, name: &str, negated: bool) -> (r:
        SpytialDecoratorsBuilder)
        ensures
            r@ == with_constraint(
                self@,
                ConstraintView::GroupSelector { selector: selector@, name: name@, negated },
            ),
    {
        self.push_constraint(
            Constraint::Group(
                GroupConstraint {
                    group: GroupParams::SelectorBased {
                        selector: String::from_str(selector),
                        name: String::from_str(name),
                        negated,
                    },
                },
            ),
        )
    }

    /// Adds an atom-colour directive.
    pub fn atom_color(self, selector: &str, value: &str) -> (r: SpytialDecoratorsBuilder)
        ensures
            r@ == with_directive(
                self@,
                DirectiveView::AtomColor { selector: selector@, value: value@ },
            ),
    {
        self.push_directive(
            Directive::AtomColor(
                AtomColorDirective {
                    atom_color: AtomColorParams {
                        selector: String::from_str(selector),
                        value: String::from_str(value),
                    },
                },
            ),
        )
    }

    /// Adds a size directive.
    pub fn size(self, selector: &str, height: u32, width: u32) -> (r: SpytialDecoratorsBuilder)
        ensures
            r@ == with_directive(
                self@,
                DirectiveView::Size { selector: selector@, height, width },
            ),
    {
        self.push_directive(
            Directive::Size(
                SizeDirective {
                    size: SizeParams { selector: String::from_str(selector), height, width },
                },
            ),
        )
    }

    /// Adds an icon directive.
    pub fn icon(self, selector: &str, path: &str, show_labels: bool) -> (r:
        SpytialDecoratorsBuilder)
        ensures
            r@ == with_directive(
                self@,
                DirectiveView::Icon { selector: selector@, path: path@, show_labels },
            ),
    {
        self.push_directive(
            Directive::Icon(
                IconDirective {
                    icon: IconParams {
                        selector: String::from_str(selector),
                        path: String::from_str(path),
                        show_labels,
                    },
                },
            ),
        )
    }

    /// Adds an edge-style directive; `weight_bits` is the bit pattern of
    /// the `f64` weight.
    pub fn edge_style(
        self,
        field: &str,
        value: &str,
        selector: Option<&str>,
        filter: Option<&str>,
        style: Option<&str>,
        weight_bits: Option<u64>,
        show_label: Option<bool>,
        hidden: Option<bool>,
    ) -> (r: SpytialDecoratorsBuilder)
        ensures
            r@ == with_directive(
                self@,
                DirectiveView::EdgeStyle {
                    field: field@,
                    value: value@,
                    selector: match selector {
                        Some(s) => Some(s@),
                        None => None,
                    },
                    filter: match filter {
                        Some(s) => Some(s@),
                        None => None,
                    },
                    style: match style {
                        Some(s) => Some(s@),
                        None => None,
                    },
                    weight_bits,
                    show_label,
                    hidden,
                },
            ),
    {
        self.push_directive(
            Directive::EdgeStyle(
                EdgeStyleDirective {
                    edge_style: EdgeStyleParams {
                        field: String::from_str(field),
                        value: String::from_str(value),
                        selector: own_opt(selector),
                        filter: own_opt(filter),
                        style: own_opt(style),
                        weight_bits,
                        show_label,
                        hidden,
                    },
                },
            ),
        )
    }

    /// Adds a projection directive.
    pub fn projection(self, sig: &str) -> (r: SpytialDecoratorsBuilder)
        ensures
            r@ == with_directive(self@, DirectiveView::Projection { sig: sig@ }),
    {
        self.push_directive(
            Directive::Projection(
                ProjectionDirective { projection: ProjectionParams { sig: String::from_str(sig) } },
            ),
        )
    }

    /// Adds an attribute directive.
    pub fn attribute(self, field: &str, selector: Option<&str>) -> (r: SpytialDecoratorsBuilder)
        ensures
            r@ == with_directive(
                self@,
                DirectiveView::Attribute {
                    field: field@,
                    selector: match selector {
                        Some(s) => Some(s@),
                        None => None,
                    },
                },
            ),
    {
        self.push_directive(
            Directive::Attribute(
                AttributeDirective {
                    attribute: AttributeParams {
                        field: String::from_str(field),
                        selector: own_opt(selector),
                    },
                },
            ),
        )
    }

    /// Adds a hide-field directive.
    pub fn hide_field(self, field: &str, selector: Option<&str>) -> (r: SpytialDecoratorsBuilder)
        ensures
            r@ == with_directive(
                self@,
                DirectiveView::HideField {
                    field: field@,
                    selector: match selector {
                        Some(s) => Some(s@),
                        None => None,
                    },
                },
            ),
    {
        self.push_directive(
            Directive::HideField(
                HideFieldDirective {
                    hide_field: HideFieldParams {
                        field: String::from_str(field),
                        selector: own_opt(selector),
                    },
                },
            ),
        )
    }

    /// Adds a hide-atom constraint.
    pub fn hide_atom(self, selector: &str) -> (r: SpytialDecoratorsBuilder)
        ensures
            r@ == with_constraint(self@, ConstraintView::HideAtom { selector: selector@ }),
    {
        self.push_constraint(
            Constraint::HideAtom(
                HideAtomDirective { hide_atom: HideAtomParams { selector: String::from_str(selector) } },
            ),
        )
    }

    /// Adds an inferred-edge directive.
    pub fn inferred_edge(self, name: &str, selector: &str) -> (r: SpytialDecoratorsBuilder)
        ensures
            r@ == with_directive(
                self@,
                DirectiveView::InferredEdge { name: name@, selector: selector@ },
            ),
    {
        self.push_directive(
            Directive::InferredEdge(
                InferredEdgeDirective {
                    inferred_edge: InferredEdgeParams {
                        name: String::from_str(name),
                        selector: String::from_str(selector),
                    },
                },
            ),
        )
    }

    /// Adds a flag directive.
    pub fn flag(self, name: &str) -> (r: SpytialDecoratorsBuilder)
        ensures
            r@ == with_directive(self@, DirectiveView::Flag { flag: name@ }),
    {
        self.push_directive(Directive::Flag(FlagDirective { flag: String::from_str(name) }))
    }

    /// Adds a tag directive.
    pub fn tag(self, to_tag: &str, name: &str, value: &str) -> (r: SpytialDecoratorsBuilder)
        ensures
            r@ == with_directive(
                self@,
                DirectiveView::Tag { to_tag: to_tag@, name: name@, value: value@ },
            ),
    {
        self.push_directive(
            Directive::Tag(
                TagDirective {
                    tag: TagParams {
                        to_tag: String::from_str(to_tag),
                        name: String::from_str(name),
                        value: String::from_str(value),
                    },
                },
            ),
        )
    }

    /// Appends another decorator set's constraints and directives, in order.
    pub fn extend_with(self, other: SpytialDecorators) -> (r: SpytialDecoratorsBuilder)
        ensures
            r@ == merged(self@, other@),
    {
        let mut b = self;
        append_constraints(&mut b.constraints, &other.constraints);
        append_directives(&mut b.directives, &other.directives);
        b
    }

    /// Appends the decorators `T::decorators()` gives, in order.
    pub fn include_decorators_from_type<T: HasSpytialDecorators>(self) -> (r:
        SpytialDecoratorsBuilder)
        ensures
            exists|d: SpytialDecorators|
                call_ensures(T::decorators, (), d) && r@ == merged(self@, d@),
    {
        let other = T::decorators();
        self.extend_with(other)
    }

    /// The assembled decorator set.
    pub fn build(self) -> (r: SpytialDecorators)
        ensures
            r@ == self@,
    {
        SpytialDecorators { constraints: self.constraints, directives: self.directives }
    }
}

} // verus!
