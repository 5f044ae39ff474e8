//! The reference catalog: name resolution for resources, recipes,
//! buildings and modules.
//!
//! The catalog is plain data, built once by the caller and passed into
//! the design builder.  Every lookup is case-insensitive (ASCII) and
//! alias-aware, and returns the first matching entry in table order.
//! Resource types are opaque identifiers; two lines carry the same
//! resource exactly when their identifiers are equal.

use vstd::prelude::*;
use crate::modifier::Module;
use crate::rat::Rat;

verus! {

/// ASCII lower-casing of one byte.
pub open spec fn fold_byte(b: u8) -> u8 {
    if 65 <= b <= 90 {
        (b + 32) as u8
    } else {
        b
    }
}

/// ASCII lower-casing of a name.
pub open spec fn fold_name(s: Seq<u8>) -> Seq<u8> {
    Seq::new(s.len(), |i: int| fold_byte(s[i]))
}

/// Case-insensitive name equality.
pub open spec fn names_match(a: Seq<u8>, b: Seq<u8>) -> bool {
    fold_name(a) == fold_name(b)
}

/// Case-insensitive byte-string comparison.
pub fn eq_fold(a: &Vec<u8>, b: &Vec<u8>) -> (r: bool)
    ensures
        r == names_match(a@, b@),
{
    if a.len() != b.len() {
        proof {
            assert(fold_name(a@).len() != fold_name(b@).len());
        }
        return false;
    }
    let n = a.len();
    let mut i: usize = 0;
    while i < n
        invariant
            n == a@.len() == b@.len(),
            0 <= i <= n,
            forall|m: int| 0 <= m < i ==> fold_byte(a@[m]) == fold_byte(b@[m]),
        decreases n - i,
    {
        let mut x = a[i];
        let mut y = b[i];
        if 65 <= x && x <= 90 {
            x = x + 32;
        }
        if 65 <= y && y <= 90 {
            y = y + 32;
        }
        if x != y {
            proof {
                assert(fold_name(a@)[i as int] == fold_byte(a@[i as int]));
                assert(fold_name(b@)[i as int] == fold_byte(b@[i as int]));
            }
            return false;
        }
        i = i + 1;
    }
    proof {
        assert(fold_name(a@) =~= fold_name(b@));
    }
    true
}

/// A processing unit's template: its base energy draw and crafting speed.
pub struct BuildingTemplate {
    pub name: Vec<u8>,
    pub energy_consumption: Rat,
    pub crafting_speed: Rat,
}

/// A recipe's template: required input and output resource types with
/// their quantities, and the base processing time.
pub struct RecipeTemplate {
    pub name: Vec<u8>,
    pub aliases: Vec<Vec<u8>>,
    pub inputs: Vec<(u32, Rat)>,
    pub outputs: Vec<(u32, Rat)>,
    pub time: Rat,
}

/// The static reference data: alias tables and templates.
pub struct Catalog {
    pub resources: Vec<(Vec<u8>, u32)>,
    pub buildings: Vec<BuildingTemplate>,
    pub recipes: Vec<RecipeTemplate>,
    pub modules: Vec<(Vec<u8>, Module)>,
}

/// No resource type appears twice among a template's inputs, nor twice
/// among its outputs.
pub open spec fn recipe_types_unique(t: RecipeTemplate) -> bool {
    &&& forall|j: int, k: int|
        0 <= j < k < t.inputs@.len() ==> (#[trigger] t.inputs@[j]).0 != (#[trigger] t.inputs@[k]).0
    &&& forall|j: int, k: int|
        0 <= j < k < t.outputs@.len() ==> (#[trigger] t.outputs@[j]).0 != (
        #[trigger] t.outputs@[k]).0
}

/// The first resource entry whose name matches, searched in table order.
pub open spec fn spec_resolve_resource(rs: Seq<(Vec<u8>, u32)>, name: Seq<u8>) -> Option<u32>
    decreases rs.len(),
{
    if rs.len() == 0 {
        None
    } else if names_match(rs[0].0@, name) {
        Some(rs[0].1)
    } else {
        spec_resolve_resource(rs.skip(1), name)
    }
}

/// The first module entry whose name matches, searched in table order.
pub open spec fn spec_resolve_module(ms: Seq<(Vec<u8>, Module)>, name: Seq<u8>) -> Option<Module>
    decreases ms.len(),
{
    if ms.len() == 0 {
        None
    } else if names_match(ms[0].0@, name) {
        Some(ms[0].1)
    } else {
        spec_resolve_module(ms.skip(1), name)
    }
}

/// Whether a recipe template answers to `name`, by its name or an alias.
pub open spec fn recipe_matches(t: RecipeTemplate, name: Seq<u8>) -> bool {
    names_match(t.name@, name) || exists|j: int|
        0 <= j < t.aliases@.len() && names_match(#[trigger] t.aliases@[j]@, name)
}

/// Index of the first matching recipe template.
pub open spec fn spec_resolve_recipe(ts: Seq<RecipeTemplate>, name: Seq<u8>) -> Option<int>
    decreases ts.len(),
{
    if ts.len() == 0 {
        None
    } else if recipe_matches(ts[0], name) {
        Some(0)
    } else {
        match spec_resolve_recipe(ts.skip(1), name) {
            Some(i) => Some(i + 1),
            None => None,
        }
    }
}

/// Index of the first building template whose name matches.
pub open spec fn spec_resolve_building(bs: Seq<BuildingTemplate>, name: Seq<u8>) -> Option<int>
    decreases bs.len(),
{
    if bs.len() == 0 {
        None
    } else if names_match(bs[0].name@, name) {
        Some(0)
    } else {
        match spec_resolve_building(bs.skip(1), name) {
            Some(i) => Some(i + 1),
            None => None,
        }
    }
}

impl Catalog {
    /// The catalog invariant the builder relies on: no recipe template
    /// repeats a resource type on one side.
    pub open spec fn wf(self) -> bool {
        forall|i: int| 0 <= i < self.recipes@.len() ==> recipe_types_unique(#[trigger] self.recipes@[i])
    }

    /// Resolves a resource name to its type identifier.
    pub fn resolve_resource(&self, name: &Vec<u8>) -> (r: Option<u32>)
        ensures
            r == spec_resolve_resource(self.resources@, name@),
    {
        let n = self.resources.len();
        let mut i: usize = 0;
        proof {
            assert(self.resources@.skip(0) =~= self.resources@);
        }
        while i < n
            invariant
                n == self.resources@.len(),
                0 <= i <= n,
                spec_resolve_resource(self.resources@, name@) == spec_resolve_resource(
                    self.resources@.skip(i as int),
                    name@,
                ),
            decreases n - i,
        {
            proof {
                assert(self.resources@.skip(i as int)[0] == self.resources@[i as int]);
                assert(self.resources@.skip(i as int).skip(1) =~= self.resources@.skip(i + 1));
            }
            if eq_fold(&self.resources[i].0, name) {
                return Some(self.resources[i].1);
            }
            i = i + 1;
        }
        None
    }

    /// Resolves a module name to its modifier kind.
    pub fn resolve_module(&self, name: &Vec<u8>) -> (r: Option<Module>)
        ensures
            r == spec_resolve_module(self.modules@, name@),
    {
        let n = self.modules.len();
        let mut i: usize = 0;
        proof {
            assert(self.modules@.skip(0) =~= self.modules@);
        }
        while i < n
            invariant
                n == self.modules@.len(),
                0 <= i <= n,
                spec_resolve_module(self.modules@, name@) == spec_resolve_module(
                    self.modules@.skip(i as int),
                    name@,
                ),
            decreases n - i,
        {
            proof {
                assert(self.modules@.skip(i as int)[0] == self.modules@[i as int]);
                assert(self.modules@.skip(i as int).skip(1) =~= self.modules@.skip(i + 1));
            }
            if eq_fold(&self.modules[i].0, name) {
                return Some(self.modules[i].1);
            }
            i = i + 1;
        }
        None
    }

    /// Resolves a building name to the index of its template.
    pub fn resolve_building(&self, name: &Vec<u8>) -> (r: Option<usize>)
        ensures
            match r {
                Some(i) => Some(i as int) == spec_resolve_building(self.buildings@, name@) && i
                    < self.buildings@.len(),
                None => spec_resolve_building(self.buildings@, name@) is None,
            },
    {
        let n = self.buildings.len();
        let mut i: usize = 0;
        proof {
            assert(self.buildings@.skip(0) =~= self.buildings@);
        }
        while i < n
            invariant
                n == self.buildings@.len(),
                0 <= i <= n,
                spec_resolve_building(self.buildings@.skip(i as int), name@) matches Some(k)
                    ==> spec_resolve_building(self.buildings@, name@) == Some(k + i),
                spec_resolve_building(self.buildings@.skip(i as int), name@) is None
                    ==> spec_resolve_building(self.buildings@, name@) is None,
            decreases n - i,
        {
            proof {
                assert(self.buildings@.skip(i as int)[0] == self.buildings@[i as int]);
                assert(self.buildings@.skip(i as int).skip(1) =~= self.buildings@.skip(i + 1));
            }
            if eq_fold(&self.buildings[i].name, name) {
                return Some(i);
            }
            i = i + 1;
        }
        proof {
            assert(self.buildings@.skip(n as int).len() == 0);
        }
        None
    }

    /// Resolves a recipe name, by name or alias, to the index of its
    /// template.
    pub fn resolve_recipe(&self, name: &Vec<u8>) -> (r: Option<usize>)
        ensures
            match r {
                Some(i) => Some(i as int) == spec_resolve_recipe(self.recipes@, name@) && i
                    < self.recipes@.len(),
                None => spec_resolve_recipe(self.recipes@, name@) is None,
            },
    {
        let n = self.recipes.len();
        let mut i: usize = 0;
        proof {
            assert(self.recipes@.skip(0) =~= self.recipes@);
        }
        while i < n
            invariant
                n == self.recipes@.len(),
                0 <= i <= n,
                spec_resolve_recipe(self.recipes@.skip(i as int), name@) matches Some(k)
                    ==> spec_resolve_recipe(self.recipes@, name@) == Some(k + i),
                spec_resolve_recipe(self.recipes@.skip(i as int), name@) is None
                    ==> spec_resolve_recipe(self.recipes@, name@) is None,
            decreases n - i,
        {
            proof {
                assert(self.recipes@.skip(i as int)[0] == self.recipes@[i as int]);
                assert(self.recipes@.skip(i as int).skip(1) =~= self.recipes@.skip(i + 1));
            }
            if self.recipe_matches_at(i, name) {
                return Some(i);
            }
            i = i + 1;
        }
        proof {
            assert(self.recipes@.skip(n as int).len() == 0);
        }
        None
    }

    /// Whether the template at `i` answers to `name`.
    fn recipe_matches_at(&self, i: usize, name: &Vec<u8>) -> (r: bool)
        requires
            i < self.recipes@.len(),
        ensures
            r == recipe_matches(self.recipes@[i as int], name@),
    {
        let t = &self.recipes[i];
        if eq_fold(&t.name, name) {
            return true;
        }
        let m = t.aliases.len();
        let mut j: usize = 0;
        while j < m
            invariant
                m == t.aliases@.len(),
                0 <= j <= m,
                t == self.recipes@[i as int],
                forall|k: int| 0 <= k < j ==> !names_match(#[trigger] t.aliases@[k]@, name@),
            decreases m - j,
        {
            if eq_fold(&t.aliases[j], name) {
                return true;
            }
            j = j + 1;
        }
        false
    }
}

} // verus!
