//! How the hidden-text font is made reachable from one page: the steps that
//! give the page a resource dictionary of its own, as an indirect object,
//! and put `/F0` into its `/Font` dictionary, leaving every other entry of
//! the resources the page already had alone.

use vstd::prelude::*;
use crate::forms::Oid;

verus! {

/// How a dictionary entry is held: by reference, inline, or not at all.
#[derive(PartialEq, Eq, Debug, Clone, Copy)]
pub enum Slot {
    Ref(Oid),
    Inline,
    Missing,
}

/// Where the page's own, indirect resource dictionary comes from.
#[derive(PartialEq, Eq, Debug, Clone, Copy)]
pub enum ResourcesStep {
    /// The page's `/Resources` already refers to an object: edit that one.
    UseRef(Oid),
    /// The page's inline `/Resources` moves into an object of its own.
    MoveInline,
    /// The page has none but inherits them: a copy of the inherited
    /// dictionary becomes the page's own object.
    CopyInherited,
    /// There are no resources anywhere: an empty dictionary becomes the
    /// page's own object.
    CreateEmpty,
}

/// How `/F0` goes into that resource dictionary's `/Font`.
#[derive(PartialEq, Eq, Debug, Clone, Copy)]
pub enum FontStep {
    /// `/Font` refers to an object: set `/F0` in that object.
    SetInRef(Oid),
    /// `/Font` is inline: set `/F0` in it.
    SetInInline,
    /// `/Font` of inherited resources refers to an object other pages reach
    /// too: copy that font dictionary inline into the page's own resources
    /// and set `/F0` in the copy, leaving the shared object alone.
    CopyRefInline(Oid),
    /// There is no `/Font`: a new one holding only `/F0`.
    Create,
}

/// The two steps.
#[derive(PartialEq, Eq, Debug, Clone, Copy)]
pub struct FontPlan {
    pub resources: ResourcesStep,
    pub font: FontStep,
}

/// The resources step for how the page holds `/Resources` and whether it
/// inherits resources from an ancestor.
pub open spec fn resources_step(resources: Slot, inherited: bool) -> ResourcesStep {
    match resources {
        Slot::Ref(id) => ResourcesStep::UseRef(id),
        Slot::Inline => ResourcesStep::MoveInline,
        Slot::Missing => if inherited {
            ResourcesStep::CopyInherited
        } else {
            ResourcesStep::CreateEmpty
        },
    }
}

/// The font step for how the chosen resource dictionary holds `/Font`; a
/// fresh empty dictionary has none, and a referenced font dictionary of
/// inherited resources is copied rather than edited.
pub open spec fn font_step(step: ResourcesStep, font: Slot) -> FontStep {
    if step == ResourcesStep::CreateEmpty {
        FontStep::Create
    } else {
        match font {
            Slot::Ref(id) => if step == ResourcesStep::CopyInherited {
                FontStep::CopyRefInline(id)
            } else {
                FontStep::SetInRef(id)
            },
            Slot::Inline => FontStep::SetInInline,
            Slot::Missing => FontStep::Create,
        }
    }
}

/// The plan for a page whose `/Resources` is held as `resources`, that
/// inherits resources from an ancestor when `inherited`, and whose resource
/// dictionary (its own, or the inherited one) holds `/Font` as `font`.
pub fn font_plan(resources: Slot, inherited: bool, font: Slot) -> (p: FontPlan)
    ensures
        p.resources == resources_step(resources, inherited),
        p.font == font_step(p.resources, font),
        // What the page could already name stays reachable: a page that
        // inherits resources never gets an empty dictionary in their place.
        inherited ==> p.resources != ResourcesStep::CreateEmpty,
        // Nothing another page reaches through the inherited resources is
        // edited: their font dictionary is copied, not changed in place.
        p.resources == ResourcesStep::CopyInherited ==> !(p.font is SetInRef),
{
    let step = match resources {
        Slot::Ref(id) => ResourcesStep::UseRef(id),
        Slot::Inline => ResourcesStep::MoveInline,
        Slot::Missing => if inherited {
            ResourcesStep::CopyInherited
        } else {
            ResourcesStep::CreateEmpty
        },
    };
    let font = match step {
        ResourcesStep::CreateEmpty => FontStep::Create,
        ResourcesStep::CopyInherited => match font {
            Slot::Ref(id) => FontStep::CopyRefInline(id),
            Slot::Inline => FontStep::SetInInline,
            Slot::Missing => FontStep::Create,
        },
        _ => match font {
            Slot::Ref(id) => FontStep::SetInRef(id),
            Slot::Inline => FontStep::SetInInline,
            Slot::Missing => FontStep::Create,
        },
    };
    FontPlan { resources: step, font }
}


/// Whatever `/Font` the page's resources (its own, or the inherited ones)
/// already hold is kept and extended, never replaced: an inline `/Font`
/// gets `/F0` set in it; a referenced one gets `/F0` set in the object, or
/// in a copy of it when the resources are inherited; only resources without
/// a `/Font`, or a fresh empty dictionary, get a new `/Font`.
pub proof fn lemma_font_plan_keeps_fonts(resources: Slot, inherited: bool, font: Slot)
    requires
        !(resources == Slot::Missing && !inherited),
    ensures
        ({
            let p = FontPlan {
                resources: resources_step(resources, inherited),
                font: font_step(resources_step(resources, inherited), font),
            };
            &&& font == Slot::Inline ==> p.font == FontStep::SetInInline
            &&& forall|id: Oid| font == Slot::Ref(id) ==> (p.font == FontStep::SetInRef(id)
                || p.font == FontStep::CopyRefInline(id))
            &&& font == Slot::Missing ==> p.font == FontStep::Create
            &&& resources == Slot::Missing ==> p.resources == ResourcesStep::CopyInherited
            &&& forall|id: Oid| resources == Slot::Ref(id) ==> p.resources == ResourcesStep::UseRef(id)
            &&& resources == Slot::Inline ==> p.resources == ResourcesStep::MoveInline
        }),
{
}

/// With no resources anywhere, the page gets a fresh dictionary and a
/// fresh `/Font` holding only `/F0`.
pub proof fn lemma_font_plan_no_resources(font: Slot)
    ensures
        resources_step(Slot::Missing, false) == ResourcesStep::CreateEmpty,
        font_step(ResourcesStep::CreateEmpty, font) == FontStep::Create,
{
}

} // verus!
