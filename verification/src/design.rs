//! The design: resource lines, units, boundary sets and the
//! normalization anchor, built once from a parsed tree.
//!
//! Lines and units share one index counter, so together they form the
//! variable space of the balance solver: indices are dense, unique, and
//! assigned in declaration order starting at zero.

use vstd::prelude::*;
use crate::catalog::{
    spec_resolve_building, spec_resolve_module, spec_resolve_recipe, spec_resolve_resource, Catalog,
};
use crate::errors::InputError;
use crate::modifier::Module;
use crate::node::{lemma_views_of, views_of, Node, NodeV};
use crate::rat::{q_int, Q, Rat};
use crate::text::spec_parse_i16;

verus! {

/// Model of a resource line: a named, typed flow with its variable index.
pub struct LineV {
    pub name: Seq<u8>,
    pub resource_type: u32,
    pub index: int,
}

/// Model of an instantiated recipe: lines with exact quantities, and the
/// base processing time.
pub struct RecipeV {
    pub name: Seq<u8>,
    pub inputs: Seq<(LineV, Q)>,
    pub outputs: Seq<(LineV, Q)>,
    pub time: Q,
}

/// Model of a unit: its template values, built recipe, modules and
/// variable index.
pub struct BuildingV {
    pub name: Seq<u8>,
    pub recipe: RecipeV,
    pub energy_consumption: Q,
    pub crafting_speed: Q,
    pub modules: Seq<(Module, i16)>,
    pub index: int,
}

/// Model of a whole design.
pub struct DesignV {
    pub lines: Seq<LineV>,
    pub buildings: Seq<BuildingV>,
    pub inputs: Seq<Seq<u8>>,
    pub outputs: Seq<Seq<u8>>,
    pub normalized_var: Option<int>,
    pub normalized_value: Q,
    pub next_index: int,
}

/// A named, typed flow of one resource between units and/or the design
/// boundary.
pub struct ResourceLine {
    pub name: Vec<u8>,
    pub resource_type: u32,
    pub index: usize,
}

impl View for ResourceLine {
    type V = LineV;

    open spec fn view(&self) -> LineV {
        LineV { name: self.name@, resource_type: self.resource_type, index: self.index as int }
    }
}

impl Clone for ResourceLine {
    fn clone(&self) -> (r: ResourceLine)
        ensures
            r@ == self@,
    {
        ResourceLine {
            name: copy_bytes(&self.name),
            resource_type: self.resource_type,
            index: self.index,
        }
    }
}

/// An instantiated recipe: resource lines paired with the template's
/// quantities, and the template's base time.
pub struct Recipe {
    pub name: Vec<u8>,
    pub inputs: Vec<(ResourceLine, Rat)>,
    pub outputs: Vec<(ResourceLine, Rat)>,
    pub time: Rat,
}

/// Line-and-quantity pairs, as their models.
pub open spec fn rl_pairs_view(v: Seq<(ResourceLine, Rat)>) -> Seq<(LineV, Q)> {
    Seq::new(v.len(), |i: int| (v[i].0@, v[i].1@))
}

/// Names, as byte sequences.
pub open spec fn names_view(v: Seq<Vec<u8>>) -> Seq<Seq<u8>> {
    Seq::new(v.len(), |i: int| v[i]@)
}

impl View for Recipe {
    type V = RecipeV;

    open spec fn view(&self) -> RecipeV {
        RecipeV {
            name: self.name@,
            inputs: rl_pairs_view(self.inputs@),
            outputs: rl_pairs_view(self.outputs@),
            time: self.time@,
        }
    }
}

/// A processing unit: template values, its recipe, its modules, and its
/// variable index.
pub struct Building {
    pub name: Vec<u8>,
    pub recipe: Recipe,
    pub energy_consumption: Rat,
    pub crafting_speed: Rat,
    pub modules: Vec<(Module, i16)>,
    pub index: usize,
}

impl View for Building {
    type V = BuildingV;

    open spec fn view(&self) -> BuildingV {
        BuildingV {
            name: self.name@,
            recipe: self.recipe@,
            energy_consumption: self.energy_consumption@,
            crafting_speed: self.crafting_speed@,
            modules: self.modules@,
            index: self.index as int,
        }
    }
}

/// The aggregate root: all lines and units, the boundary sets, and the
/// normalization anchor.
pub struct Design {
    pub resource_lines: Vec<ResourceLine>,
    pub buildings: Vec<Building>,
    pub input_lines: Vec<Vec<u8>>,
    pub output_lines: Vec<Vec<u8>>,
    pub normalized_var: Option<usize>,
    pub normalized_value: Rat,
    pub next_index: usize,
}

impl View for Design {
    type V = DesignV;

    open spec fn view(&self) -> DesignV {
        DesignV {
            lines: Seq::new(self.resource_lines@.len(), |i: int| self.resource_lines@[i]@),
            buildings: Seq::new(self.buildings@.len(), |i: int| self.buildings@[i]@),
            inputs: names_view(self.input_lines@),
            outputs: names_view(self.output_lines@),
            normalized_var: match self.normalized_var {
                Some(v) => Some(v as int),
                None => None,
            },
            normalized_value: self.normalized_value@,
            next_index: self.next_index as int,
        }
    }
}

/// Copies a byte string.
pub fn copy_bytes(v: &Vec<u8>) -> (out: Vec<u8>)
    ensures
        out@ == v@,
{
    let n = v.len();
    let mut out: Vec<u8> = Vec::new();
    let mut i: usize = 0;
    while i < n
        invariant
            n == v@.len(),
            0 <= i <= n,
            out@ == v@.take(i as int),
        decreases n - i,
    {
        let b = v[i];
        out.push(b);
        i = i + 1;
        proof {
            assert(out@ =~= v@.take(i as int));
        }
    }
    proof {
        assert(v@.take(n as int) =~= v@);
    }
    out
}

/// Exact byte-string equality.
pub fn bytes_eq(a: &Vec<u8>, b: &Vec<u8>) -> (r: bool)
    ensures
        r == (a@ == b@),
{
    if a.len() != b.len() {
        return false;
    }
    let n = a.len();
    let mut i: usize = 0;
    while i < n
        invariant
            n == a@.len() == b@.len(),
            0 <= i <= n,
            forall|m: int| 0 <= m < i ==> a@[m] == b@[m],
        decreases n - i,
    {
        if a[i] != b[i] {
            return false;
        }
        i = i + 1;
    }
    proof {
        assert(a@ =~= b@);
    }
    true
}

/// Index of the first line with this exact name.
pub open spec fn find_line(lines: Seq<LineV>, name: Seq<u8>) -> Option<int>
    decreases lines.len(),
{
    if lines.len() == 0 {
        None
    } else if lines[0].name == name {
        Some(0)
    } else {
        match find_line(lines.skip(1), name) {
            Some(i) => Some(i + 1),
            None => None,
        }
    }
}

/// What looking a line up, creating it on first reference, does to a
/// design: an existing line is returned unchanged provided its type
/// matches; an absent name allocates a fresh line at the next shared
/// index.
pub open spec fn spec_get_line(d: DesignV, resource_type: u32, name: Seq<u8>) -> Result<
    (LineV, DesignV),
    InputError,
> {
    match find_line(d.lines, name) {
        Some(i) => {
            if d.lines[i].resource_type == resource_type {
                Ok((d.lines[i], d))
            } else {
                Err(InputError::TypeMismatch)
            }
        },
        None => {
            if d.next_index >= usize::MAX as int {
                Err(InputError::CapacityExceeded)
            } else {
                let l = LineV { name, resource_type, index: d.next_index };
                Ok(
                    (
                        l,
                        DesignV {
                            lines: d.lines.push(l),
                            next_index: d.next_index + 1,
                            ..d
                        },
                    ),
                )
            }
        },
    }
}

impl Design {
    /// An empty design: no lines, no units, no anchor, normalization
    /// target one.
    pub fn new() -> (d: Design)
        ensures
            d@.lines.len() == 0,
            d@.buildings.len() == 0,
            d@.inputs.len() == 0,
            d@.outputs.len() == 0,
            d@.normalized_var is None,
            d@.normalized_value == q_int(1),
            d@.next_index == 0,
    {
        Design {
            resource_lines: Vec::new(),
            buildings: Vec::new(),
            input_lines: Vec::new(),
            output_lines: Vec::new(),
            normalized_var: None,
            normalized_value: Rat::one(),
            next_index: 0,
        }
    }

    /// Looks a line up by name, creating it on first reference.  A
    /// repeated request with the same type returns the same line; a
    /// repeated name with a different type is an error.
    pub fn get_line(&mut self, resource_type: u32, name: &Vec<u8>) -> (r: Result<
        ResourceLine,
        InputError,
    >)
        ensures
            match r {
                Ok(l) => spec_get_line(old(self)@, resource_type, name@) == Ok::<
                    (LineV, DesignV),
                    InputError,
                >((l@, final(self)@)),
                Err(e) => spec_get_line(old(self)@, resource_type, name@) == Err::<
                    (LineV, DesignV),
                    _,
                >(e) && final(self)@ == old(self)@,
            },
    {
        let n = self.resource_lines.len();
        let ghost lines = self@.lines;
        let mut i: usize = 0;
        proof {
            assert(lines.skip(0) =~= lines);
        }
        while i < n
            invariant
                n == self.resource_lines@.len(),
                0 <= i <= n,
                lines == self@.lines,
                lines.len() == n,
                find_line(lines.skip(i as int), name@) matches Some(k) ==> find_line(lines, name@)
                    == Some(k + i),
                find_line(lines.skip(i as int), name@) is None ==> find_line(lines, name@) is None,
            decreases n - i,
        {
            proof {
                assert(lines.skip(i as int)[0] == lines[i as int]);
                assert(lines.skip(i as int).skip(1) =~= lines.skip(i + 1));
            }
            if bytes_eq(&self.resource_lines[i].name, name) {
                if self.resource_lines[i].resource_type == resource_type {
                    let l = self.resource_lines[i].clone();
                    return Ok(l);
                } else {
                    return Err(InputError::TypeMismatch);
                }
            }
            i = i + 1;
        }
        proof {
            assert(lines.skip(n as int).len() == 0);
        }
        if self.next_index == usize::MAX {
            return Err(InputError::CapacityExceeded);
        }
        let line = ResourceLine {
            name: copy_bytes(name),
            resource_type,
            index: self.next_index,
        };
        let l = line.clone();
        self.resource_lines.push(line);
        self.next_index = self.next_index + 1;
        proof {
            let step: Result<(LineV, DesignV), InputError> = spec_get_line(
                old(self)@,
                resource_type,
                name@,
            );
            let d2 = step->Ok_0.1;
            assert(self@.lines =~= d2.lines);
            assert(self@.inputs =~= d2.inputs);
            assert(self@.outputs =~= d2.outputs);
            assert(self@.buildings =~= d2.buildings);
        }
        Ok(l)
    }
}

/// What `find_line` finds: the first line of that exact name.
pub proof fn lemma_find_line(lines: Seq<LineV>, name: Seq<u8>)
    ensures
        match find_line(lines, name) {
            Some(i) => 0 <= i < lines.len() && lines[i].name == name && forall|j: int|
                0 <= j < i ==> (#[trigger] lines[j]).name != name,
            None => forall|j: int| 0 <= j < lines.len() ==> (#[trigger] lines[j]).name != name,
        },
    decreases lines.len(),
{
    if lines.len() > 0 && lines[0].name != name {
        lemma_find_line(lines.skip(1), name);
        let t = lines.skip(1);
        match find_line(t, name) {
            Some(i) => {
                assert(lines[i + 1] == t[i]);
                assert forall|j: int| 0 <= j < i + 1 implies (#[trigger] lines[j]).name != name by {
                    if j > 0 {
                        assert(lines[j] == t[j - 1]);
                    }
                }
            },
            None => {
                assert forall|j: int| 0 <= j < lines.len() implies (#[trigger] lines[j]).name
                    != name by {
                    if j > 0 {
                        assert(lines[j] == t[j - 1]);
                    }
                }
            },
        }
    }
}

/// Appending a line of the sought name to a sequence without it makes it
/// the one that is found.
proof fn lemma_find_line_push(lines: Seq<LineV>, name: Seq<u8>, l: LineV)
    requires
        find_line(lines, name) is None,
        l.name == name,
    ensures
        find_line(lines.push(l), name) == Some(lines.len() as int),
    decreases lines.len(),
{
    if lines.len() == 0 {
        assert(lines.push(l)[0] == l);
        assert(find_line(lines.push(l), name) == Some(0int));
    } else {
        assert(lines.push(l)[0] == lines[0]);
        assert(lines.push(l).skip(1) =~= lines.skip(1).push(l));
        lemma_find_line_push(lines.skip(1), name, l);
    }
}

/// Looking a line up twice is the same as once: the second request with
/// the same type returns the same line, the same index, and leaves the
/// design unchanged.
pub proof fn lemma_get_line_idempotent(d: DesignV, resource_type: u32, name: Seq<u8>)
    requires
        spec_get_line(d, resource_type, name) is Ok,
    ensures
        ({
            let (l, d2) = spec_get_line(d, resource_type, name)->Ok_0;
            spec_get_line(d2, resource_type, name) == Ok::<_, InputError>((l, d2))
        }),
{
    let (l, d2) = spec_get_line(d, resource_type, name)->Ok_0;
    match find_line(d.lines, name) {
        Some(i) => {},
        None => {
            lemma_find_line_push(d.lines, name, l);
        },
    }
}

/// Reusing a line name with a different resource type fails.
pub proof fn lemma_get_line_conflict(d: DesignV, resource_type: u32, other_type: u32, name: Seq<
    u8,
>)
    requires
        spec_get_line(d, resource_type, name) is Ok,
        other_type != resource_type,
    ensures
        ({
            let (l, d2) = spec_get_line(d, resource_type, name)->Ok_0;
            spec_get_line(d2, other_type, name) == Err::<(LineV, DesignV), _>(
                InputError::TypeMismatch,
            )
        }),
{
    let (l, d2) = spec_get_line(d, resource_type, name)->Ok_0;
    match find_line(d.lines, name) {
        Some(i) => {
            lemma_find_line(d.lines, name);
        },
        None => {
            lemma_find_line_push(d.lines, name, l);
        },
    }
}

/// The label that opens a boundary-input or unit-input block.
pub open spec fn inputs_label() -> Seq<u8> {
    seq![73u8, 110u8, 112u8, 117u8, 116u8, 115u8]
}

/// The label that opens a boundary-output or unit-output block.
pub open spec fn outputs_label() -> Seq<u8> {
    seq![79u8, 117u8, 116u8, 112u8, 117u8, 116u8, 115u8]
}

/// The label that opens a unit's module block.
pub open spec fn modules_label() -> Seq<u8> {
    seq![77u8, 111u8, 100u8, 117u8, 108u8, 101u8, 115u8]
}

/// Whether a name sequence already holds `n`.
pub open spec fn contains_name(names: Seq<Seq<u8>>, n: Seq<u8>) -> bool {
    exists|i: int| 0 <= i < names.len() && names[i] == n
}

/// Adds a name to a boundary set unless it is already there.
pub open spec fn add_name(names: Seq<Seq<u8>>, n: Seq<u8>) -> Seq<Seq<u8>> {
    if contains_name(names, n) {
        names
    } else {
        names.push(n)
    }
}

/// Index of the first pending requirement of this resource type.
pub open spec fn find_type(rem: Seq<(u32, Q)>, ty: u32) -> Option<int>
    decreases rem.len(),
{
    if rem.len() == 0 {
        None
    } else if rem[0].0 == ty {
        Some(0)
    } else {
        match find_type(rem.skip(1), ty) {
            Some(i) => Some(i + 1),
            None => None,
        }
    }
}

/// A recipe template's requirement list, as type and exact quantity.
pub open spec fn pairs_view(v: Seq<(u32, Rat)>) -> Seq<(u32, Q)> {
    Seq::new(v.len(), |i: int| (v[i].0, v[i].1@))
}

/// The builder's state while it walks one unit declaration.
pub struct UnitState {
    pub d: DesignV,
    pub remaining_in: Seq<(u32, Q)>,
    pub remaining_out: Seq<(u32, Q)>,
    pub line_in: Seq<(LineV, Q)>,
    pub line_out: Seq<(LineV, Q)>,
    pub modules: Seq<(Module, i16)>,
}

/// One boundary leaf: the line is looked up or created, its name joins
/// the boundary set, and the first output line ever recorded becomes the
/// normalization anchor.
pub open spec fn spec_io_leaves(
    d: DesignV,
    resource_type: u32,
    leaves: Seq<NodeV>,
    is_input: bool,
) -> Result<DesignV, InputError>
    decreases leaves,
{
    if leaves.len() == 0 {
        Ok(d)
    } else {
        let leaf = leaves[0];
        if leaf.children.len() != 0 {
            Err(
                if is_input {
                    InputError::UnexpectedInputChild
                } else {
                    InputError::UnexpectedOutputChild
                },
            )
        } else {
            match spec_get_line(d, resource_type, leaf.value) {
                Err(e) => Err(e),
                Ok((l, d2)) => {
                    let d3 = if is_input {
                        DesignV { inputs: add_name(d2.inputs, l.name), ..d2 }
                    } else {
                        let d2b = DesignV { outputs: add_name(d2.outputs, l.name), ..d2 };
                        if d2b.normalized_var is None {
                            DesignV { normalized_var: Some(l.index), ..d2b }
                        } else {
                            d2b
                        }
                    };
                    spec_io_leaves(d3, resource_type, leaves.skip(1), is_input)
                },
            }
        }
    }
}

/// One boundary group per resource type: its name resolves through the
/// catalog, and each leaf declares one line.
pub open spec fn spec_io_groups(
    cat: Catalog,
    d: DesignV,
    groups: Seq<NodeV>,
    is_input: bool,
) -> Result<DesignV, InputError>
    decreases groups,
{
    if groups.len() == 0 {
        Ok(d)
    } else {
        match spec_resolve_resource(cat.resources@, groups[0].value) {
            None => Err(InputError::UnknownResource),
            Some(ty) => match spec_io_leaves(d, ty, groups[0].children, is_input) {
                Err(e) => Err(e),
                Ok(d2) => spec_io_groups(cat, d2, groups.skip(1), is_input),
            },
        }
    }
}

/// One entry of a unit's input or output block: the type resolves, the
/// entry names exactly one line, the line is looked up or created, and
/// one pending requirement of that type is discharged.  Returns the
/// design, the pending requirements and the recorded lines.
pub open spec fn spec_unit_entries(
    cat: Catalog,
    d: DesignV,
    rem: Seq<(u32, Q)>,
    lst: Seq<(LineV, Q)>,
    entries: Seq<NodeV>,
    is_input: bool,
) -> Result<(DesignV, Seq<(u32, Q)>, Seq<(LineV, Q)>), InputError>
    decreases entries,
{
    if entries.len() == 0 {
        Ok((d, rem, lst))
    } else {
        let e = entries[0];
        match spec_resolve_resource(cat.resources@, e.value) {
            None => Err(InputError::UnknownResource),
            Some(ty) => {
                if e.children.len() != 1 {
                    Err(
                        if is_input {
                            InputError::InputLineCount
                        } else {
                            InputError::OutputLineCount
                        },
                    )
                } else {
                    match spec_get_line(d, ty, e.children[0].value) {
                        Err(err) => Err(err),
                        Ok((l, d2)) => match find_type(rem, ty) {
                            None => Err(
                                if is_input {
                                    InputError::InvalidRecipeInput
                                } else {
                                    InputError::InvalidRecipeOutput
                                },
                            ),
                            Some(k) => spec_unit_entries(
                                cat,
                                d2,
                                rem.remove(k),
                                lst.push((l, rem[k].1)),
                                entries.skip(1),
                                is_input,
                            ),
                        },
                    }
                }
            },
        }
    }
}

/// One entry of a unit's module block: the kind resolves, and the count
/// is one, or the single child parsed as a 16-bit integer.
pub open spec fn spec_module_entries(
    cat: Catalog,
    ms: Seq<(Module, i16)>,
    entries: Seq<NodeV>,
) -> Result<Seq<(Module, i16)>, InputError>
    decreases entries,
{
    if entries.len() == 0 {
        Ok(ms)
    } else {
        let e = entries[0];
        match spec_resolve_module(cat.modules@, e.value) {
            None => Err(InputError::UnknownModule),
            Some(kind) => {
                if e.children.len() == 0 {
                    spec_module_entries(cat, ms.push((kind, 1i16)), entries.skip(1))
                } else if e.children.len() == 1 {
                    match spec_parse_i16(e.children[0].value) {
                        None => Err(InputError::InvalidModuleCount),
                        Some(c) => spec_module_entries(
                            cat,
                            ms.push((kind, c as i16)),
                            entries.skip(1),
                        ),
                    }
                } else {
                    Err(InputError::InvalidModuleCount)
                }
            },
        }
    }
}

/// One property block under a unit: inputs, outputs or modules; any
/// other label is ignored.
pub open spec fn spec_unit_prop(cat: Catalog, st: UnitState, prop: NodeV) -> Result<
    UnitState,
    InputError,
>
    decreases prop,
{
    if prop.value == inputs_label() {
        match spec_unit_entries(cat, st.d, st.remaining_in, st.line_in, prop.children, true) {
            Err(e) => Err(e),
            Ok((d2, rem2, lst2)) => Ok(
                UnitState { d: d2, remaining_in: rem2, line_in: lst2, ..st },
            ),
        }
    } else if prop.value == outputs_label() {
        match spec_unit_entries(cat, st.d, st.remaining_out, st.line_out, prop.children, false) {
            Err(e) => Err(e),
            Ok((d2, rem2, lst2)) => Ok(
                UnitState { d: d2, remaining_out: rem2, line_out: lst2, ..st },
            ),
        }
    } else if prop.value == modules_label() {
        match spec_module_entries(cat, st.modules, prop.children) {
            Err(e) => Err(e),
            Ok(ms2) => Ok(UnitState { modules: ms2, ..st }),
        }
    } else {
        Ok(st)
    }
}

pub open spec fn spec_unit_props(cat: Catalog, st: UnitState, props: Seq<NodeV>) -> Result<
    UnitState,
    InputError,
>
    decreases props,
{
    if props.len() == 0 {
        Ok(st)
    } else {
        match spec_unit_prop(cat, st, props[0]) {
            Err(e) => Err(e),
            Ok(st2) => spec_unit_props(cat, st2, props.skip(1)),
        }
    }
}

/// A unit declaration: the building and recipe resolve through the
/// catalog, every templated requirement is matched by exactly one
/// declared line, and the unit is allocated at the next shared index.
pub open spec fn spec_unit(cat: Catalog, d: DesignV, node: NodeV) -> Result<DesignV, InputError>
    decreases node,
{
    match spec_resolve_building(cat.buildings@, node.value) {
        None => Err(InputError::UnknownBuilding),
        Some(bi) => {
            if node.children.len() == 0 {
                Err(InputError::MissingRecipe)
            } else {
                match spec_resolve_recipe(cat.recipes@, node.children[0].value) {
                    None => Err(InputError::UnknownRecipe),
                    Some(ri) => {
                        let tmpl = cat.recipes@[ri];
                        let st0 = UnitState {
                            d,
                            remaining_in: pairs_view(tmpl.inputs@),
                            remaining_out: pairs_view(tmpl.outputs@),
                            line_in: Seq::empty(),
                            line_out: Seq::empty(),
                            modules: Seq::empty(),
                        };
                        match spec_unit_props(cat, st0, node.children.skip(1)) {
                            Err(e) => Err(e),
                            Ok(st) => {
                                if st.remaining_in.len() > 0 {
                                    Err(InputError::UnfilledInputs)
                                } else if st.remaining_out.len() > 0 {
                                    Err(InputError::UnfilledOutputs)
                                } else if st.d.next_index >= usize::MAX as int {
                                    Err(InputError::CapacityExceeded)
                                } else {
                                    let b = BuildingV {
                                        name: cat.buildings@[bi].name@,
                                        recipe: RecipeV {
                                            name: tmpl.name@,
                                            inputs: st.line_in,
                                            outputs: st.line_out,
                                            time: tmpl.time@,
                                        },
                                        energy_consumption: cat.buildings@[bi].energy_consumption@,
                                        crafting_speed: cat.buildings@[bi].crafting_speed@,
                                        modules: st.modules,
                                        index: st.d.next_index,
                                    };
                                    Ok(
                                        DesignV {
                                            buildings: st.d.buildings.push(b),
                                            next_index: st.d.next_index + 1,
                                            ..st.d
                                        },
                                    )
                                }
                            },
                        }
                    },
                }
            }
        },
    }
}

/// One top-level node: a boundary block or a unit declaration.
pub open spec fn spec_step(cat: Catalog, d: DesignV, node: NodeV) -> Result<DesignV, InputError>
    decreases node,
{
    if node.value == inputs_label() {
        spec_io_groups(cat, d, node.children, true)
    } else if node.value == outputs_label() {
        spec_io_groups(cat, d, node.children, false)
    } else {
        spec_unit(cat, d, node)
    }
}

pub open spec fn spec_build_from(cat: Catalog, d: DesignV, nodes: Seq<NodeV>) -> Result<
    DesignV,
    InputError,
>
    decreases nodes,
{
    if nodes.len() == 0 {
        Ok(d)
    } else {
        match spec_step(cat, d, nodes[0]) {
            Err(e) => Err(e),
            Ok(d2) => spec_build_from(cat, d2, nodes.skip(1)),
        }
    }
}

/// The empty design every build starts from.
pub open spec fn initial_design() -> DesignV {
    DesignV {
        lines: Seq::empty(),
        buildings: Seq::empty(),
        inputs: Seq::empty(),
        outputs: Seq::empty(),
        normalized_var: None,
        normalized_value: q_int(1),
        next_index: 0,
    }
}

/// Every label in a forest of nodes is valid UTF-8 text.
pub open spec fn spec_all_utf8(ns: Seq<NodeV>) -> bool
    decreases ns,
{
    if ns.len() == 0 {
        true
    } else {
        crate::text::is_utf8(ns[0].value) && spec_all_utf8(ns[0].children) && spec_all_utf8(
            ns.skip(1),
        )
    }
}

/// Checks that every label in the tree decodes as UTF-8 text.
fn nodes_utf8(nodes: &Vec<Node>) -> (r: bool)
    ensures
        r == spec_all_utf8(views_of(nodes@)),
    decreases nodes@,
{
    let ghost vs = views_of(nodes@);
    proof {
        lemma_views_of(nodes@);
        assert(vs.skip(0) =~= vs);
    }
    let n = nodes.len();
    let mut i: usize = 0;
    while i < n
        invariant
            n == nodes@.len(),
            0 <= i <= n,
            vs == views_of(nodes@),
            vs.len() == n,
            forall|m: int| 0 <= m < n ==> vs[m] == nodes@[m]@,
            spec_all_utf8(vs) == spec_all_utf8(vs.skip(i as int)),
        decreases n - i,
    {
        proof {
            assert(vs.skip(i as int)[0] == vs[i as int]);
            assert(vs.skip(i as int).skip(1) =~= vs.skip(i + 1));
            lemma_views_of(nodes@[i as int].children@);
        }
        if !crate::text::validate_utf8(&nodes[i].value) {
            return false;
        }
        if !nodes_utf8(&nodes[i].children) {
            return false;
        }
        i = i + 1;
    }
    proof {
        assert(vs.skip(n as int).len() == 0);
    }
    true
}

/// What building a design from a parsed tree yields: a decoding failure
/// if any label is not UTF-8 text, else the left-to-right fold of the
/// top-level nodes over the empty design.
pub open spec fn spec_build(cat: Catalog, nodes: Seq<NodeV>) -> Result<DesignV, InputError> {
    if !spec_all_utf8(nodes) {
        Err(InputError::DecodeFailure)
    } else {
        spec_build_from(cat, initial_design(), nodes)
    }
}

/// A unit's numeric values are well-formed rationals.
pub open spec fn bwf(b: BuildingV) -> bool {
    &&& crate::rat::q_wf(b.energy_consumption)
    &&& crate::rat::q_wf(b.crafting_speed)
    &&& crate::rat::q_wf(b.recipe.time)
    &&& forall|i: int|
        0 <= i < b.recipe.inputs.len() ==> crate::rat::q_wf((#[trigger] b.recipe.inputs[i]).1)
    &&& forall|i: int|
        0 <= i < b.recipe.outputs.len() ==> crate::rat::q_wf((#[trigger] b.recipe.outputs[i]).1)
}

/// The design invariants: indices are dense, unique across lines and
/// units, and bounded by the shared counter; line names are unique; the
/// normalization anchor, when set, is a line's index; and all stored
/// quantities are well-formed rationals.
pub open spec fn dwf(d: DesignV) -> bool {
    &&& forall|i: int| 0 <= i < d.lines.len() ==> 0 <= (#[trigger] d.lines[i]).index < d.next_index
    &&& forall|i: int|
        0 <= i < d.buildings.len() ==> 0 <= (#[trigger] d.buildings[i]).index < d.next_index
    &&& forall|i: int, j: int|
        0 <= i < j < d.lines.len() ==> (#[trigger] d.lines[i]).index != (
        #[trigger] d.lines[j]).index && d.lines[i].name != d.lines[j].name
    &&& forall|i: int, j: int|
        0 <= i < j < d.buildings.len() ==> (#[trigger] d.buildings[i]).index != (
        #[trigger] d.buildings[j]).index
    &&& forall|i: int, j: int|
        0 <= i < d.lines.len() && 0 <= j < d.buildings.len() ==> (#[trigger] d.lines[i]).index != (
        #[trigger] d.buildings[j]).index
    &&& d.lines.len() + d.buildings.len() == d.next_index
    &&& match d.normalized_var {
        Some(v) => exists|i: int| 0 <= i < d.lines.len() && (#[trigger] d.lines[i]).index == v,
        None => true,
    }
    &&& crate::rat::q_wf(d.normalized_value)
    &&& forall|i: int| 0 <= i < d.buildings.len() ==> bwf(#[trigger] d.buildings[i])
}

/// All quantities in a requirement or line list are well-formed.
pub open spec fn qlist_wf(l: Seq<(LineV, Q)>) -> bool {
    forall|i: int| 0 <= i < l.len() ==> crate::rat::q_wf((#[trigger] l[i]).1)
}

pub open spec fn rlist_wf(l: Seq<(u32, Q)>) -> bool {
    forall|i: int| 0 <= i < l.len() ==> crate::rat::q_wf((#[trigger] l[i]).1)
}

/// Line lookup preserves the design invariants; the returned line is one
/// of the design's lines and everything else is untouched.
pub proof fn lemma_get_line_wf(d: DesignV, resource_type: u32, name: Seq<u8>)
    requires
        dwf(d),
        spec_get_line(d, resource_type, name) is Ok,
    ensures
        ({
            let (l, d2) = spec_get_line(d, resource_type, name)->Ok_0;
            &&& dwf(d2)
            &&& exists|i: int| 0 <= i < d2.lines.len() && (#[trigger] d2.lines[i]) == l
            &&& l.name == name
            &&& 0 <= l.index < d2.next_index
            &&& d2.buildings == d.buildings
            &&& d2.inputs == d.inputs
            &&& d2.outputs == d.outputs
            &&& d2.normalized_var == d.normalized_var
            &&& d2.normalized_value == d.normalized_value
            &&& d2.next_index >= d.next_index
        }),
{
    let (l, d2) = spec_get_line(d, resource_type, name)->Ok_0;
    lemma_find_line(d.lines, name);
    match find_line(d.lines, name) {
        Some(i) => {
            assert(d2.lines[i] == l);
        },
        None => {
            let lines2 = d.lines.push(l);
            assert(lines2[d.lines.len() as int] == l);
            assert forall|i: int, j: int| 0 <= i < j < lines2.len() implies (
            #[trigger] lines2[i]).index != (#[trigger] lines2[j]).index && lines2[i].name
                != lines2[j].name by {
                if j < d.lines.len() {
                    assert(lines2[i] == d.lines[i] && lines2[j] == d.lines[j]);
                } else {
                    assert(lines2[i] == d.lines[i] && lines2[j] == l);
                }
            }
            assert forall|i: int| 0 <= i < lines2.len() implies 0 <= (#[trigger] lines2[i]).index
                < d2.next_index by {
                if i < d.lines.len() {
                    assert(lines2[i] == d.lines[i]);
                }
            }
            match d.normalized_var {
                Some(v) => {
                    let w = choose|i: int|
                        0 <= i < d.lines.len() && (#[trigger] d.lines[i]).index == v;
                    assert(lines2[w].index == v);
                },
                None => {},
            }
        },
    }
}

/// Boundary-leaf processing preserves the design invariants.
pub proof fn lemma_io_leaves_wf(d: DesignV, resource_type: u32, leaves: Seq<NodeV>, is_input: bool)
    requires
        dwf(d),
        spec_io_leaves(d, resource_type, leaves, is_input) is Ok,
    ensures
        dwf(spec_io_leaves(d, resource_type, leaves, is_input)->Ok_0),
    decreases leaves,
{
    if leaves.len() > 0 {
        let leaf = leaves[0];
        lemma_get_line_wf(d, resource_type, leaf.value);
        let (l, d2) = spec_get_line(d, resource_type, leaf.value)->Ok_0;
        let d3 = if is_input {
            DesignV { inputs: add_name(d2.inputs, l.name), ..d2 }
        } else {
            let d2b = DesignV { outputs: add_name(d2.outputs, l.name), ..d2 };
            if d2b.normalized_var is None {
                DesignV { normalized_var: Some(l.index), ..d2b }
            } else {
                d2b
            }
        };
        assert(dwf(d3));
        lemma_io_leaves_wf(d3, resource_type, leaves.skip(1), is_input);
    }
}

/// Boundary-group processing preserves the design invariants.
pub proof fn lemma_io_groups_wf(cat: Catalog, d: DesignV, groups: Seq<NodeV>, is_input: bool)
    requires
        dwf(d),
        spec_io_groups(cat, d, groups, is_input) is Ok,
    ensures
        dwf(spec_io_groups(cat, d, groups, is_input)->Ok_0),
    decreases groups,
{
    if groups.len() > 0 {
        let ty = spec_resolve_resource(cat.resources@, groups[0].value)->0;
        lemma_io_leaves_wf(d, ty, groups[0].children, is_input);
        let d2 = spec_io_leaves(d, ty, groups[0].children, is_input)->Ok_0;
        lemma_io_groups_wf(cat, d2, groups.skip(1), is_input);
    }
}

/// Unit-entry processing preserves the design invariants and the
/// well-formedness of the requirement and line lists.
pub proof fn lemma_unit_entries_wf(
    cat: Catalog,
    d: DesignV,
    rem: Seq<(u32, Q)>,
    lst: Seq<(LineV, Q)>,
    entries: Seq<NodeV>,
    is_input: bool,
)
    requires
        dwf(d),
        rlist_wf(rem),
        qlist_wf(lst),
        spec_unit_entries(cat, d, rem, lst, entries, is_input) is Ok,
    ensures
        ({
            let (d2, rem2, lst2) = spec_unit_entries(cat, d, rem, lst, entries, is_input)->Ok_0;
            dwf(d2) && rlist_wf(rem2) && qlist_wf(lst2)
        }),
    decreases entries,
{
    if entries.len() > 0 {
        let e = entries[0];
        let ty = spec_resolve_resource(cat.resources@, e.value)->0;
        lemma_get_line_wf(d, ty, e.children[0].value);
        let (l, d2) = spec_get_line(d, ty, e.children[0].value)->Ok_0;
        let k = find_type(rem, ty)->0;
        lemma_find_type(rem, ty);
        assert forall|i: int| 0 <= i < rem.remove(k).len() implies crate::rat::q_wf(
            (#[trigger] rem.remove(k)[i]).1,
        ) by {
            if i < k {
                assert(rem.remove(k)[i] == rem[i]);
            } else {
                assert(rem.remove(k)[i] == rem[i + 1]);
            }
        }
        lemma_unit_entries_wf(
            cat,
            d2,
            rem.remove(k),
            lst.push((l, rem[k].1)),
            entries.skip(1),
            is_input,
        );
    }
}

/// What `find_type` finds is in range.
proof fn lemma_find_type(rem: Seq<(u32, Q)>, ty: u32)
    ensures
        match find_type(rem, ty) {
            Some(k) => 0 <= k < rem.len() && rem[k].0 == ty,
            None => true,
        },
    decreases rem.len(),
{
    if rem.len() > 0 && rem[0].0 != ty {
        lemma_find_type(rem.skip(1), ty);
    }
}

/// Unit property blocks preserve the design invariants.
pub proof fn lemma_unit_props_wf(cat: Catalog, st: UnitState, props: Seq<NodeV>)
    requires
        dwf(st.d),
        rlist_wf(st.remaining_in),
        rlist_wf(st.remaining_out),
        qlist_wf(st.line_in),
        qlist_wf(st.line_out),
        spec_unit_props(cat, st, props) is Ok,
    ensures
        ({
            let st2 = spec_unit_props(cat, st, props)->Ok_0;
            dwf(st2.d) && rlist_wf(st2.remaining_in) && rlist_wf(st2.remaining_out) && qlist_wf(
                st2.line_in,
            ) && qlist_wf(st2.line_out)
        }),
    decreases props,
{
    if props.len() > 0 {
        let prop = props[0];
        if prop.value == inputs_label() {
            lemma_unit_entries_wf(cat, st.d, st.remaining_in, st.line_in, prop.children, true);
        } else if prop.value == outputs_label() {
            lemma_unit_entries_wf(cat, st.d, st.remaining_out, st.line_out, prop.children, false);
        }
        let st2 = spec_unit_prop(cat, st, prop)->Ok_0;
        lemma_unit_props_wf(cat, st2, props.skip(1));
    }
}

/// Unit allocation preserves the design invariants.
pub proof fn lemma_unit_wf(cat: Catalog, d: DesignV, node: NodeV)
    requires
        dwf(d),
        spec_unit(cat, d, node) is Ok,
    ensures
        dwf(spec_unit(cat, d, node)->Ok_0),
{
    broadcast use crate::rat::lemma_rat_view_wf;

    let bi = spec_resolve_building(cat.buildings@, node.value)->0;
    let ri = spec_resolve_recipe(cat.recipes@, node.children[0].value)->0;
    let tmpl = cat.recipes@[ri];
    let st0 = UnitState {
        d,
        remaining_in: pairs_view(tmpl.inputs@),
        remaining_out: pairs_view(tmpl.outputs@),
        line_in: Seq::empty(),
        line_out: Seq::empty(),
        modules: Seq::empty(),
    };
    lemma_unit_props_wf(cat, st0, node.children.skip(1));
    let st = spec_unit_props(cat, st0, node.children.skip(1))->Ok_0;
    let d2 = spec_unit(cat, d, node)->Ok_0;
    let b = d2.buildings.last();
    assert(bwf(b));
    assert forall|i: int, j: int| 0 <= i < j < d2.buildings.len() implies (
    #[trigger] d2.buildings[i]).index != (#[trigger] d2.buildings[j]).index by {
        if j < st.d.buildings.len() {
            assert(d2.buildings[i] == st.d.buildings[i] && d2.buildings[j] == st.d.buildings[j]);
        } else {
            assert(d2.buildings[i] == st.d.buildings[i] && d2.buildings[j] == b);
        }
    }
    assert forall|i: int| 0 <= i < d2.buildings.len() implies 0 <= (
    #[trigger] d2.buildings[i]).index < d2.next_index by {
        if i < st.d.buildings.len() {
            assert(d2.buildings[i] == st.d.buildings[i]);
        }
    }
    assert forall|i: int| 0 <= i < d2.buildings.len() implies bwf(#[trigger] d2.buildings[i]) by {
        if i < st.d.buildings.len() {
            assert(d2.buildings[i] == st.d.buildings[i]);
        }
    }
    assert forall|i: int, j: int|
        0 <= i < d2.lines.len() && 0 <= j < d2.buildings.len() implies (
    #[trigger] d2.lines[i]).index != (#[trigger] d2.buildings[j]).index by {
        if j < st.d.buildings.len() {
            assert(d2.buildings[j] == st.d.buildings[j]);
        } else {
            assert(d2.buildings[j] == b);
        }
    }
}

/// One build step preserves the design invariants.
pub proof fn lemma_step_wf(cat: Catalog, d: DesignV, node: NodeV)
    requires
        dwf(d),
        spec_step(cat, d, node) is Ok,
    ensures
        dwf(spec_step(cat, d, node)->Ok_0),
{
    if node.value == inputs_label() {
        lemma_io_groups_wf(cat, d, node.children, true);
    } else if node.value == outputs_label() {
        lemma_io_groups_wf(cat, d, node.children, false);
    } else {
        lemma_unit_wf(cat, d, node);
    }
}

/// A successful build satisfies the design invariants.
pub proof fn lemma_build_from_wf(cat: Catalog, d: DesignV, nodes: Seq<NodeV>)
    requires
        dwf(d),
        spec_build_from(cat, d, nodes) is Ok,
    ensures
        dwf(spec_build_from(cat, d, nodes)->Ok_0),
    decreases nodes,
{
    if nodes.len() > 0 {
        lemma_step_wf(cat, d, nodes[0]);
        lemma_build_from_wf(cat, spec_step(cat, d, nodes[0])->Ok_0, nodes.skip(1));
    }
}

fn is_inputs_label(v: &Vec<u8>) -> (r: bool)
    ensures
        r == (v@ == inputs_label()),
{
    let r = v.len() == 6 && v[0] == 73 && v[1] == 110 && v[2] == 112 && v[3] == 117 && v[4] == 116
        && v[5] == 115;
    proof {
        if r {
            assert(v@ =~= inputs_label());
        } else {
            assert(v@ != inputs_label());
        }
    }
    r
}

fn is_outputs_label(v: &Vec<u8>) -> (r: bool)
    ensures
        r == (v@ == outputs_label()),
{
    let r = v.len() == 7 && v[0] == 79 && v[1] == 117 && v[2] == 116 && v[3] == 112 && v[4] == 117
        && v[5] == 116 && v[6] == 115;
    proof {
        if r {
            assert(v@ =~= outputs_label());
        } else {
            assert(v@ != outputs_label());
        }
    }
    r
}

fn is_modules_label(v: &Vec<u8>) -> (r: bool)
    ensures
        r == (v@ == modules_label()),
{
    let r = v.len() == 7 && v[0] == 77 && v[1] == 111 && v[2] == 100 && v[3] == 117 && v[4] == 108
        && v[5] == 101 && v[6] == 115;
    proof {
        if r {
            assert(v@ =~= modules_label());
        } else {
            assert(v@ != modules_label());
        }
    }
    r
}

/// Records a boundary-line name, once.
fn add_name_exec(names: &mut Vec<Vec<u8>>, n: &Vec<u8>)
    ensures
        names_view(final(names)@) == add_name(names_view(old(names)@), n@),
{
    let ghost vs = names_view(names@);
    let len = names.len();
    let mut i: usize = 0;
    while i < len
        invariant
            len == names@.len(),
            0 <= i <= len,
            vs == names_view(names@),
            forall|m: int| 0 <= m < i ==> vs[m] != n@,
        decreases len - i,
    {
        if bytes_eq(&names[i], n) {
            proof {
                assert(vs[i as int] == n@);
                assert(contains_name(vs, n@));
            }
            return ;
        }
        i = i + 1;
    }
    proof {
        assert(!contains_name(vs, n@));
    }
    names.push(copy_bytes(n));
    proof {
        assert(names_view(names@) =~= vs.push(n@));
    }
}

/// First pending requirement of this type, if any.
fn find_type_exec(rem: &Vec<(u32, Rat)>, ty: u32) -> (r: Option<usize>)
    ensures
        match r {
            Some(k) => Some(k as int) == find_type(pairs_view(rem@), ty) && k < rem@.len(),
            None => find_type(pairs_view(rem@), ty) is None,
        },
{
    let ghost rv = pairs_view(rem@);
    let n = rem.len();
    let mut i: usize = 0;
    proof {
        assert(rv.skip(0) =~= rv);
    }
    while i < n
        invariant
            n == rem@.len(),
            0 <= i <= n,
            rv == pairs_view(rem@),
            find_type(rv.skip(i as int), ty) matches Some(k) ==> find_type(rv, ty) == Some(k + i),
            find_type(rv.skip(i as int), ty) is None ==> find_type(rv, ty) is None,
        decreases n - i,
    {
        proof {
            assert(rv.skip(i as int)[0] == rv[i as int]);
            assert(rv.skip(i as int).skip(1) =~= rv.skip(i + 1));
        }
        if rem[i].0 == ty {
            return Some(i);
        }
        i = i + 1;
    }
    proof {
        assert(rv.skip(n as int).len() == 0);
    }
    None
}

impl Design {
    /// Walks the leaves of one boundary group.
    fn add_io_leaves(&mut self, resource_type: u32, leaves: &Vec<Node>, is_input: bool) -> (r:
        Result<(), InputError>)
        ensures
            match r {
                Ok(_) => spec_io_leaves(
                    old(self)@,
                    resource_type,
                    views_of(leaves@),
                    is_input,
                ) == Ok::<_, InputError>(final(self)@),
                Err(e) => spec_io_leaves(
                    old(self)@,
                    resource_type,
                    views_of(leaves@),
                    is_input,
                ) == Err::<DesignV, _>(e),
            },
    {
        let ghost d0 = self@;
        let ghost vs = views_of(leaves@);
        proof {
            lemma_views_of(leaves@);
            assert(vs.skip(0) =~= vs);
        }
        let n = leaves.len();
        let mut i: usize = 0;
        while i < n
            invariant
                n == leaves@.len(),
                0 <= i <= n,
                d0 == old(self)@,
                vs == views_of(leaves@),
                vs.len() == n,
                forall|m: int| 0 <= m < n ==> vs[m] == leaves@[m]@,
                spec_io_leaves(d0, resource_type, vs, is_input) == spec_io_leaves(
                    self@,
                    resource_type,
                    vs.skip(i as int),
                    is_input,
                ),
            decreases n - i,
        {
            proof {
                assert(vs.skip(i as int)[0] == vs[i as int]);
                assert(vs.skip(i as int).skip(1) =~= vs.skip(i + 1));
            }
            let leaf = &leaves[i];
            if leaf.children.len() != 0 {
                proof {
                    lemma_views_of(leaf.children@);
                }
                if is_input {
                    return Err(InputError::UnexpectedInputChild);
                } else {
                    return Err(InputError::UnexpectedOutputChild);
                }
            }
            proof {
                lemma_views_of(leaf.children@);
                assert(vs[i as int].children.len() == 0);
            }
            let line = match self.get_line(resource_type, &leaf.value) {
                Ok(l) => l,
                Err(e) => {
                    return Err(e);
                },
            };
            if is_input {
                let ghost before = self@;
                add_name_exec(&mut self.input_lines, &line.name);
                proof {
                    assert(self@ == (DesignV {
                        inputs: add_name(before.inputs, line@.name),
                        ..before
                    }));
                }
            } else {
                let ghost before = self@;
                add_name_exec(&mut self.output_lines, &line.name);
                proof {
                    assert(self@ == (DesignV {
                        outputs: add_name(before.outputs, line@.name),
                        ..before
                    }));
                }
                if self.normalized_var.is_none() {
                    self.normalized_var = Some(line.index);
                }
            }
            i = i + 1;
        }
        proof {
            assert(vs.skip(n as int).len() == 0);
        }
        Ok(())
    }

    /// Walks the per-resource groups of a boundary block.
    fn add_io_groups(&mut self, cat: &Catalog, groups: &Vec<Node>, is_input: bool) -> (r: Result<
        (),
        InputError,
    >)
        ensures
            match r {
                Ok(_) => spec_io_groups(*cat, old(self)@, views_of(groups@), is_input)
                    == Ok::<_, InputError>(final(self)@),
                Err(e) => spec_io_groups(*cat, old(self)@, views_of(groups@), is_input)
                    == Err::<DesignV, _>(e),
            },
    {
        let ghost d0 = self@;
        let ghost vs = views_of(groups@);
        proof {
            lemma_views_of(groups@);
            assert(vs.skip(0) =~= vs);
        }
        let n = groups.len();
        let mut i: usize = 0;
        while i < n
            invariant
                n == groups@.len(),
                0 <= i <= n,
                d0 == old(self)@,
                vs == views_of(groups@),
                vs.len() == n,
                forall|m: int| 0 <= m < n ==> vs[m] == groups@[m]@,
                spec_io_groups(*cat, d0, vs, is_input) == spec_io_groups(
                    *cat,
                    self@,
                    vs.skip(i as int),
                    is_input,
                ),
            decreases n - i,
        {
            proof {
                assert(vs.skip(i as int)[0] == vs[i as int]);
                assert(vs.skip(i as int).skip(1) =~= vs.skip(i + 1));
            }
            let group = &groups[i];
            let ty = match cat.resolve_resource(&group.value) {
                Some(ty) => ty,
                None => {
                    return Err(InputError::UnknownResource);
                },
            };
            match self.add_io_leaves(ty, &group.children, is_input) {
                Ok(_) => {},
                Err(e) => {
                    return Err(e);
                },
            }
            i = i + 1;
        }
        proof {
            assert(vs.skip(n as int).len() == 0);
        }
        Ok(())
    }

    /// Walks the entries of one input or output block under a unit.
    fn unit_entries(
        &mut self,
        cat: &Catalog,
        remaining: &mut Vec<(u32, Rat)>,
        lst: &mut Vec<(ResourceLine, Rat)>,
        entries: &Vec<Node>,
        is_input: bool,
    ) -> (r: Result<(), InputError>)
        ensures
            match r {
                Ok(_) => spec_unit_entries(
                    *cat,
                    old(self)@,
                    pairs_view(old(remaining)@),
                    rl_pairs_view(old(lst)@),
                    views_of(entries@),
                    is_input,
                ) == Ok::<_, InputError>(
                    (final(self)@, pairs_view(final(remaining)@), rl_pairs_view(final(lst)@)),
                ),
                Err(e) => spec_unit_entries(
                    *cat,
                    old(self)@,
                    pairs_view(old(remaining)@),
                    rl_pairs_view(old(lst)@),
                    views_of(entries@),
                    is_input,
                ) == Err::<(DesignV, Seq<(u32, Q)>, Seq<(LineV, Q)>), _>(e),
            },
    {
        let ghost d0 = self@;
        let ghost rem0 = pairs_view(remaining@);
        let ghost lst0 = rl_pairs_view(lst@);
        let ghost vs = views_of(entries@);
        proof {
            lemma_views_of(entries@);
            assert(vs.skip(0) =~= vs);
        }
        let n = entries.len();
        let mut i: usize = 0;
        while i < n
            invariant
                n == entries@.len(),
                0 <= i <= n,
                d0 == old(self)@,
                rem0 == pairs_view(old(remaining)@),
                lst0 == rl_pairs_view(old(lst)@),
                vs == views_of(entries@),
                vs.len() == n,
                forall|m: int| 0 <= m < n ==> vs[m] == entries@[m]@,
                spec_unit_entries(*cat, d0, rem0, lst0, vs, is_input) == spec_unit_entries(
                    *cat,
                    self@,
                    pairs_view(remaining@),
                    rl_pairs_view(lst@),
                    vs.skip(i as int),
                    is_input,
                ),
            decreases n - i,
        {
            proof {
                assert(vs.skip(i as int)[0] == vs[i as int]);
                assert(vs.skip(i as int).skip(1) =~= vs.skip(i + 1));
            }
            let e = &entries[i];
            proof {
                lemma_views_of(e.children@);
            }
            let ty = match cat.resolve_resource(&e.value) {
                Some(ty) => ty,
                None => {
                    return Err(InputError::UnknownResource);
                },
            };
            if e.children.len() != 1 {
                if is_input {
                    return Err(InputError::InputLineCount);
                } else {
                    return Err(InputError::OutputLineCount);
                }
            }
            proof {
                assert(vs[i as int].children[0] == e.children@[0]@);
            }
            let line = match self.get_line(ty, &e.children[0].value) {
                Ok(l) => l,
                Err(err) => {
                    return Err(err);
                },
            };
            let k = match find_type_exec(remaining, ty) {
                Some(k) => k,
                None => {
                    if is_input {
                        return Err(InputError::InvalidRecipeInput);
                    } else {
                        return Err(InputError::InvalidRecipeOutput);
                    }
                },
            };
            let ghost rem_before = pairs_view(remaining@);
            let ghost lst_before = rl_pairs_view(lst@);
            let qty = remaining[k].1.clone();
            proof {
                assert(qty@ == rem_before[k as int].1);
            }
            remaining.remove(k);
            lst.push((line, qty));
            proof {
                assert(pairs_view(remaining@) =~= rem_before.remove(k as int));
                assert(rl_pairs_view(lst@) =~= lst_before.push((line@, qty@)));
            }
            i = i + 1;
        }
        proof {
            assert(vs.skip(n as int).len() == 0);
        }
        Ok(())
    }
}

/// Walks the entries of one module block under a unit.
fn module_entries(cat: &Catalog, ms: &mut Vec<(Module, i16)>, entries: &Vec<Node>) -> (r: Result<
    (),
    InputError,
>)
    ensures
        match r {
            Ok(_) => spec_module_entries(*cat, old(ms)@, views_of(entries@)) == Ok::<
                _,
                InputError,
            >(final(ms)@),
            Err(e) => spec_module_entries(*cat, old(ms)@, views_of(entries@)) == Err::<
                Seq<(Module, i16)>,
                _,
            >(e),
        },
{
    let ghost ms0 = ms@;
    let ghost vs = views_of(entries@);
    proof {
        lemma_views_of(entries@);
        assert(vs.skip(0) =~= vs);
    }
    let n = entries.len();
    let mut i: usize = 0;
    while i < n
        invariant
            n == entries@.len(),
            0 <= i <= n,
            ms0 == old(ms)@,
            vs == views_of(entries@),
            vs.len() == n,
            forall|m: int| 0 <= m < n ==> vs[m] == entries@[m]@,
            spec_module_entries(*cat, ms0, vs) == spec_module_entries(
                *cat,
                ms@,
                vs.skip(i as int),
            ),
        decreases n - i,
    {
        proof {
            assert(vs.skip(i as int)[0] == vs[i as int]);
            assert(vs.skip(i as int).skip(1) =~= vs.skip(i + 1));
        }
        let e = &entries[i];
        proof {
            lemma_views_of(e.children@);
        }
        let kind = match cat.resolve_module(&e.value) {
            Some(kind) => kind,
            None => {
                return Err(InputError::UnknownModule);
            },
        };
        if e.children.len() == 0 {
            ms.push((kind, 1i16));
        } else if e.children.len() == 1 {
            proof {
                assert(vs[i as int].children[0] == e.children@[0]@);
            }
            let count = match crate::text::parse_i16(&e.children[0].value) {
                Some(c) => c,
                None => {
                    return Err(InputError::InvalidModuleCount);
                },
            };
            ms.push((kind, count));
        } else {
            return Err(InputError::InvalidModuleCount);
        }
        i = i + 1;
    }
    proof {
        assert(vs.skip(n as int).len() == 0);
    }
    Ok(())
}

/// Copies a template's requirement list.
fn copy_pairs(v: &Vec<(u32, Rat)>) -> (out: Vec<(u32, Rat)>)
    ensures
        pairs_view(out@) == pairs_view(v@),
{
    let n = v.len();
    let mut out: Vec<(u32, Rat)> = Vec::new();
    let mut i: usize = 0;
    while i < n
        invariant
            n == v@.len(),
            0 <= i <= n,
            out@.len() == i,
            forall|m: int|
                0 <= m < i ==> (#[trigger] out@[m]).0 == v@[m].0 && out@[m].1@ == v@[m].1@,
        decreases n - i,
    {
        let q = v[i].1.clone();
        out.push((v[i].0, q));
        i = i + 1;
    }
    proof {
        assert(pairs_view(out@) =~= pairs_view(v@));
    }
    out
}

impl Design {
    /// Reads one unit declaration: building, recipe, and its property
    /// blocks, then allocates the unit at the next shared index.
    fn add_unit(&mut self, cat: &Catalog, node: &Node) -> (r: Result<(), InputError>)
        ensures
            match r {
                Ok(_) => spec_unit(*cat, old(self)@, node@) == Ok::<_, InputError>(final(self)@),
                Err(e) => spec_unit(*cat, old(self)@, node@) == Err::<DesignV, _>(e),
            },
    {
        proof {
            lemma_views_of(node.children@);
        }
        let bi = match cat.resolve_building(&node.value) {
            Some(bi) => bi,
            None => {
                return Err(InputError::UnknownBuilding);
            },
        };
        if node.children.len() == 0 {
            return Err(InputError::MissingRecipe);
        }
        proof {
            assert(node@.children[0] == node.children@[0]@);
        }
        let ri = match cat.resolve_recipe(&node.children[0].value) {
            Some(ri) => ri,
            None => {
                return Err(InputError::UnknownRecipe);
            },
        };
        let mut remaining_in = copy_pairs(&cat.recipes[ri].inputs);
        let mut remaining_out = copy_pairs(&cat.recipes[ri].outputs);
        let mut line_in: Vec<(ResourceLine, Rat)> = Vec::new();
        let mut line_out: Vec<(ResourceLine, Rat)> = Vec::new();
        let mut modules: Vec<(Module, i16)> = Vec::new();
        let ghost st0 = UnitState {
            d: old(self)@,
            remaining_in: pairs_view(cat.recipes@[ri as int].inputs@),
            remaining_out: pairs_view(cat.recipes@[ri as int].outputs@),
            line_in: Seq::empty(),
            line_out: Seq::empty(),
            modules: Seq::empty(),
        };
        let ghost cvs = views_of(node.children@);
        proof {
            assert(rl_pairs_view(line_in@) =~= Seq::<(LineV, Q)>::empty());
            assert(rl_pairs_view(line_out@) =~= Seq::<(LineV, Q)>::empty());
            assert(cvs.skip(1).skip(0) =~= cvs.skip(1));
        }
        let n = node.children.len();
        let mut i: usize = 1;
        while i < n
            invariant
                n == node.children@.len(),
                1 <= i <= n,
                bi < cat.buildings@.len(),
                Some(bi as int) == spec_resolve_building(cat.buildings@, node.value@),
                ri < cat.recipes@.len(),
                Some(ri as int) == spec_resolve_recipe(cat.recipes@, node.children@[0]@.value),
                node@.value == node.value@,
                node@.children == views_of(node.children@),
                st0 == (UnitState {
                    d: old(self)@,
                    remaining_in: pairs_view(cat.recipes@[ri as int].inputs@),
                    remaining_out: pairs_view(cat.recipes@[ri as int].outputs@),
                    line_in: Seq::<(LineV, Q)>::empty(),
                    line_out: Seq::<(LineV, Q)>::empty(),
                    modules: Seq::<(Module, i16)>::empty(),
                }),
                cvs == views_of(node.children@),
                cvs.len() == n,
                forall|m: int| 0 <= m < n ==> cvs[m] == node.children@[m]@,
                spec_unit_props(*cat, st0, cvs.skip(1)) == spec_unit_props(
                    *cat,
                    UnitState {
                        d: self@,
                        remaining_in: pairs_view(remaining_in@),
                        remaining_out: pairs_view(remaining_out@),
                        line_in: rl_pairs_view(line_in@),
                        line_out: rl_pairs_view(line_out@),
                        modules: modules@,
                    },
                    cvs.skip(i as int),
                ),
            decreases n - i,
        {
            proof {
                assert(cvs.skip(i as int)[0] == cvs[i as int]);
                assert(cvs.skip(i as int).skip(1) =~= cvs.skip(i + 1));
            }
            let ghost st_cur = UnitState {
                d: self@,
                remaining_in: pairs_view(remaining_in@),
                remaining_out: pairs_view(remaining_out@),
                line_in: rl_pairs_view(line_in@),
                line_out: rl_pairs_view(line_out@),
                modules: modules@,
            };
            let prop = &node.children[i];
            if is_inputs_label(&prop.value) {
                match self.unit_entries(cat, &mut remaining_in, &mut line_in, &prop.children, true)
                {
                    Ok(_) => {
                        proof {
                            let st_next = UnitState {
                                d: self@,
                                remaining_in: pairs_view(remaining_in@),
                                remaining_out: pairs_view(remaining_out@),
                                line_in: rl_pairs_view(line_in@),
                                line_out: rl_pairs_view(line_out@),
                                modules: modules@,
                            };
                            assert(spec_unit_prop(*cat, st_cur, cvs[i as int]) == Ok::<
                                _,
                                InputError,
                            >(st_next));
                        }
                    },
                    Err(e) => {
                        return Err(e);
                    },
                }
            } else if is_outputs_label(&prop.value) {
                match self.unit_entries(
                    cat,
                    &mut remaining_out,
                    &mut line_out,
                    &prop.children,
                    false,
                ) {
                    Ok(_) => {
                        proof {
                            let st_next = UnitState {
                                d: self@,
                                remaining_in: pairs_view(remaining_in@),
                                remaining_out: pairs_view(remaining_out@),
                                line_in: rl_pairs_view(line_in@),
                                line_out: rl_pairs_view(line_out@),
                                modules: modules@,
                            };
                            assert(spec_unit_prop(*cat, st_cur, cvs[i as int]) == Ok::<
                                _,
                                InputError,
                            >(st_next));
                        }
                    },
                    Err(e) => {
                        return Err(e);
                    },
                }
            } else if is_modules_label(&prop.value) {
                match module_entries(cat, &mut modules, &prop.children) {
                    Ok(_) => {
                        proof {
                            let st_next = UnitState {
                                d: self@,
                                remaining_in: pairs_view(remaining_in@),
                                remaining_out: pairs_view(remaining_out@),
                                line_in: rl_pairs_view(line_in@),
                                line_out: rl_pairs_view(line_out@),
                                modules: modules@,
                            };
                            assert(spec_unit_prop(*cat, st_cur, cvs[i as int]) == Ok::<
                                _,
                                InputError,
                            >(st_next));
                        }
                    },
                    Err(e) => {
                        return Err(e);
                    },
                }
            }
            i = i + 1;
        }
        proof {
            assert(cvs.skip(n as int).len() == 0);
        }
        if remaining_in.len() > 0 {
            return Err(InputError::UnfilledInputs);
        }
        if remaining_out.len() > 0 {
            return Err(InputError::UnfilledOutputs);
        }
        if self.next_index == usize::MAX {
            return Err(InputError::CapacityExceeded);
        }
        let ghost before = self@;
        let building = Building {
            name: copy_bytes(&cat.buildings[bi].name),
            recipe: Recipe {
                name: copy_bytes(&cat.recipes[ri].name),
                inputs: line_in,
                outputs: line_out,
                time: cat.recipes[ri].time.clone(),
            },
            energy_consumption: cat.buildings[bi].energy_consumption.clone(),
            crafting_speed: cat.buildings[bi].crafting_speed.clone(),
            modules,
            index: self.next_index,
        };
        let ghost bv = building@;
        self.buildings.push(building);
        self.next_index = self.next_index + 1;
        proof {
            let expected = spec_unit(*cat, old(self)@, node@)->Ok_0;
            assert(self@.buildings =~= before.buildings.push(bv));
            assert(self@.lines =~= expected.lines);
            assert(self@.inputs =~= expected.inputs);
            assert(self@.outputs =~= expected.outputs);
            assert(self@.buildings =~= expected.buildings);
        }
        Ok(())
    }

    /// Builds a design by one left-to-right walk of the top-level nodes:
    /// boundary blocks declare lines, every other label declares a unit.
    pub fn from_data(cat: &Catalog, data: &Vec<Node>) -> (r: Result<Design, InputError>)
        ensures
            match r {
                Ok(d) => spec_build(*cat, views_of(data@)) == Ok::<_, InputError>(d@) && dwf(d@),
                Err(e) => spec_build(*cat, views_of(data@)) == Err::<DesignV, _>(e),
            },
    {
        if !nodes_utf8(data) {
            return Err(InputError::DecodeFailure);
        }
        let mut design = Design::new();
        let ghost vs = views_of(data@);
        proof {
            lemma_views_of(data@);
            assert(vs.skip(0) =~= vs);
            assert(design@.lines =~= initial_design().lines);
            assert(design@.buildings =~= initial_design().buildings);
            assert(design@.inputs =~= initial_design().inputs);
            assert(design@.outputs =~= initial_design().outputs);
            assert(design@ == initial_design());
        }
        let n = data.len();
        let mut i: usize = 0;
        while i < n
            invariant
                n == data@.len(),
                0 <= i <= n,
                vs == views_of(data@),
                vs.len() == n,
                spec_all_utf8(vs),
                forall|m: int| 0 <= m < n ==> vs[m] == data@[m]@,
                spec_build_from(*cat, initial_design(), vs) == spec_build_from(
                    *cat,
                    design@,
                    vs.skip(i as int),
                ),
            decreases n - i,
        {
            proof {
                assert(vs.skip(i as int)[0] == vs[i as int]);
                assert(vs.skip(i as int).skip(1) =~= vs.skip(i + 1));
            }
            let node = &data[i];
            if is_inputs_label(&node.value) {
                match design.add_io_groups(cat, &node.children, true) {
                    Ok(_) => {},
                    Err(e) => {
                        return Err(e);
                    },
                }
            } else if is_outputs_label(&node.value) {
                match design.add_io_groups(cat, &node.children, false) {
                    Ok(_) => {},
                    Err(e) => {
                        return Err(e);
                    },
                }
            } else {
                match design.add_unit(cat, node) {
                    Ok(_) => {},
                    Err(e) => {
                        return Err(e);
                    },
                }
            }
            i = i + 1;
        }
        proof {
            assert(vs.skip(n as int).len() == 0);
            lemma_build_from_wf(*cat, initial_design(), vs);
        }
        Ok(design)
    }
}

} // verus!
