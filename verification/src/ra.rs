//! The naming and classification rules of Rust extraction: how crates,
//! modules and anonymous items are named, which item kinds are recorded, and
//! how a declared visibility reads relative to the item's own module. The
//! semantic analysis that feeds them (rust-analyzer) runs outside the library.

use vstd::prelude::*;
use crate::ir::{ItemId, ItemKind, ModuleId, Visibility, VisibilityView};
use crate::text::{chars_of, concat, decimal_u64, join3, push_char};

verus! {

/// The rust-analyzer version Rust extraction is pinned against.
pub const RA_VERSION: &'static str = "0.0.336";

/// The rust-analyzer backed extractor.
#[derive(Clone, Copy, Debug, Default)]
pub struct RaExtractor;

/// A crate name as an identifier: each `-` replaced by `_`.
pub open spec fn ident_of(name: Seq<char>) -> Seq<char> {
    name.map_values(|c: char| if c == '-' { '_' } else { c })
}

/// The IR name of a crate: its display name with `-` replaced by `_`, or the
/// empty name when it has none.
pub fn crate_name(display_name: &Option<String>) -> (r: String)
    ensures
        r@ == match display_name {
            Some(n) => ident_of(n@),
            None => Seq::empty(),
        },
{
    match display_name {
        Some(n) => {
            let cs = chars_of(n.as_str());
            let mut r = String::new();
            let mut i: usize = 0;
            while i < cs.len()
                invariant
                    i <= cs@.len(),
                    cs@ == n@,
                    r@ == ident_of(cs@.take(i as int)),
                decreases cs@.len() - i,
            {
                let c = if cs[i] == '-' { '_' } else { cs[i] };
                push_char(&mut r, c);
                assert(ident_of(cs@.take(i + 1)) =~= ident_of(cs@.take(i as int)).push(c));
                i = i + 1;
            }
            assert(cs@.take(cs@.len() as int) =~= cs@);
            r
        },
        None => String::new(),
    }
}

/// Segments joined with `::`.
pub open spec fn joined_path(parts: Seq<Seq<char>>) -> Seq<char>
    decreases parts.len(),
{
    if parts.len() == 0 {
        Seq::empty()
    } else if parts.len() == 1 {
        parts[0]
    } else {
        joined_path(parts.drop_last()) + "::"@ + parts.last()
    }
}

/// A module's canonical path from its chain of names, root first (the root
/// contributing the crate name), for example `my_crate::parser`.
pub fn canonical_module_path(parts: &Vec<String>) -> (r: String)
    ensures
        r@ == joined_path(crate::scip_lower::str_views(parts@)),
{
    let ghost pv = crate::scip_lower::str_views(parts@);
    if parts.len() == 0 {
        return String::new();
    }
    let mut r = parts[0].clone();
    let mut i: usize = 1;
    assert(pv.take(1).drop_last().len() == 0);
    while i < parts.len()
        invariant
            1 <= i <= parts@.len(),
            pv == crate::scip_lower::str_views(parts@),
            r@ == joined_path(pv.take(i as int)),
        decreases parts@.len() - i,
    {
        assert(pv.take(i + 1).drop_last() =~= pv.take(i as int));
        r = join3(r.as_str(), "::", parts[i].as_str());
        i = i + 1;
    }
    assert(pv.take(parts@.len() as int) =~= pv);
    r
}

/// The path synthesized for an item without one: `{anon#MODULE#ITEM#NAME}`.
pub open spec fn spec_synthetic_path(owning: ModuleId, id: ItemId, name: Option<Seq<char>>) -> Seq<char> {
    "{anon#"@ + crate::text::decimal_text(owning.0 as int) + "#"@ + crate::text::decimal_text(id.0 as int) + "#"@
        + match name {
        Some(n) => n,
        None => "_"@,
    } + "}"@
}

/// A stable synthesized path for an item with no path of its own, from its
/// owning module, its id and its name (`_` when it has none).
pub fn synthetic_path(owning: ModuleId, id: ItemId, name: &Option<String>) -> (r: String)
    ensures
        r@ == spec_synthetic_path(owning, id, match name {
            Some(n) => Some(n@),
            None => None,
        }),
{
    let m = decimal_u64(owning.0 as u64);
    let i = decimal_u64(id.0 as u64);
    let a = concat("{anon#", m.as_str());
    let b = join3(a.as_str(), "#", i.as_str());
    let c = concat(b.as_str(), "#");
    let d = match name {
        Some(n) => concat(c.as_str(), n.as_str()),
        None => concat(c.as_str(), "_"),
    };
    concat(d.as_str(), "}")
}

/// The kind of a module-level definition, as the analysis reports it.
#[derive(Clone, Copy, Debug, PartialEq, Eq, Structural)]
pub enum DefKind {
    Module,
    Function,
    Struct,
    Enum,
    Union,
    EnumVariant,
    Const,
    Static,
    Trait,
    TypeAlias,
    Macro,
    BuiltinType,
}

/// The item kind of a definition; modules are not items.
pub open spec fn spec_item_kind(def: DefKind) -> Option<ItemKind> {
    match def {
        DefKind::Module => None,
        DefKind::Function => Some(ItemKind::Function),
        DefKind::Struct => Some(ItemKind::Struct),
        DefKind::Enum => Some(ItemKind::Enum),
        DefKind::Union => Some(ItemKind::Union),
        DefKind::EnumVariant => Some(ItemKind::EnumVariant),
        DefKind::Const => Some(ItemKind::Const),
        DefKind::Static => Some(ItemKind::Static),
        DefKind::Trait => Some(ItemKind::Trait),
        DefKind::TypeAlias => Some(ItemKind::TypeAlias),
        DefKind::Macro => Some(ItemKind::Macro),
        DefKind::BuiltinType => Some(ItemKind::BuiltinType),
    }
}

/// Maps a definition kind to an item kind.
pub fn item_kind(def: DefKind) -> (r: Option<ItemKind>)
    ensures
        r == spec_item_kind(def),
{
    match def {
        DefKind::Module => None,
        DefKind::Function => Some(ItemKind::Function),
        DefKind::Struct => Some(ItemKind::Struct),
        DefKind::Enum => Some(ItemKind::Enum),
        DefKind::Union => Some(ItemKind::Union),
        DefKind::EnumVariant => Some(ItemKind::EnumVariant),
        DefKind::Const => Some(ItemKind::Const),
        DefKind::Static => Some(ItemKind::Static),
        DefKind::Trait => Some(ItemKind::Trait),
        DefKind::TypeAlias => Some(ItemKind::TypeAlias),
        DefKind::Macro => Some(ItemKind::Macro),
        DefKind::BuiltinType => Some(ItemKind::BuiltinType),
    }
}

/// A declared visibility, as the analysis reports it: public, crate-wide, or
/// restricted to a module, described relative to the item's owning module.
#[derive(Clone, Debug)]
pub enum DeclaredVisibility {
    Public,
    PubCrate,
    /// Restricted to a module: whether it is the crate root, the owning
    /// module itself, or the owning module's parent, and its path.
    InModule { is_crate_root: bool, is_owning: bool, is_parent: bool, path: String },
}

/// The IR visibility of a declared visibility.
pub open spec fn spec_map_visibility(v: DeclaredVisibility) -> VisibilityView {
    match v {
        DeclaredVisibility::Public => VisibilityView::Public,
        DeclaredVisibility::PubCrate => VisibilityView::Crate,
        DeclaredVisibility::InModule { is_crate_root, is_owning, is_parent, path } => {
            if is_crate_root {
                VisibilityView::Crate
            } else if is_owning {
                VisibilityView::Private
            } else if is_parent {
                VisibilityView::Super
            } else {
                VisibilityView::Module(path@)
            }
        },
    }
}

/// Maps a declared visibility to the IR visibility, relative to the item's
/// owning module so `pub(self)` and `pub(super)` are distinguished.
pub fn map_visibility(v: &DeclaredVisibility) -> (r: Visibility)
    ensures
        r@ == spec_map_visibility(*v),
{
    match v {
        DeclaredVisibility::Public => Visibility::Public,
        DeclaredVisibility::PubCrate => Visibility::Crate,
        DeclaredVisibility::InModule { is_crate_root, is_owning, is_parent, path } => {
            if *is_crate_root {
                Visibility::Crate
            } else if *is_owning {
                Visibility::Private
            } else if *is_parent {
                Visibility::Super
            } else {
                Visibility::Module(path.clone())
            }
        },
    }
}


/// Law: a crate's IR name is its display name with each `-` turned into
/// `_`, character for character: it has no `-` and keeps every other
/// character in place.
pub proof fn law_crate_ident(name: Seq<char>)
    ensures
        ident_of(name).len() == name.len(),
        !ident_of(name).contains('-'),
        forall|i: int| 0 <= i < name.len() ==> #[trigger] ident_of(name)[i] == if name[i] == '-' { '_' } else { name[i] },
{
    assert(!ident_of(name).contains('-')) by {
        if ident_of(name).contains('-') {
            let j = choose|j: int| 0 <= j < ident_of(name).len() && ident_of(name)[j] == '-';
            assert(ident_of(name)[j] == if name[j] == '-' { '_' } else { name[j] });
        }
    }
}

} // verus!
