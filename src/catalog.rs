use vstd::prelude::*;

verus! {

/// A treasure's socket capacity: (circular sockets, rectangular sockets).
pub type Sockets = (u8, u8);

/// Counts of each gem type, in catalog order: three circular gems, then three
/// rectangular gems. Used both as a socket filling and as a gem budget.
pub type Combo = [usize; 6];

/// How many instances of each catalog treasure are requested, in catalog order.
pub type TreasureCollection = [usize; 10];

/// Number of gem types in the catalog.
pub const GEM_KINDS: usize = 6;

/// Number of treasure types in the catalog.
pub const TREASURE_KINDS: usize = 10;

#[derive(Clone, Copy, Debug, PartialEq, Eq, Structural)]
pub enum Color {
    Blue,
    Green,
    Purple,
    Red,
    Yellow,
}

#[derive(Clone, Copy, Debug, PartialEq, Eq, Structural)]
pub enum Shape {
    Circular,
    Rectangular,
}

#[derive(Clone, Copy, Debug)]
pub struct Gem {
    pub id: u8,
    pub name: &'static str,
    pub shape: Shape,
    pub color: Color,
    pub value: u16,
}

#[derive(Clone, Copy, Debug)]
pub struct Treasure {
    pub id: u8,
    pub name: &'static str,
    pub sockets: Sockets,
    pub value: u16,
}

/// The gem catalog entry at position `i`.
pub open spec fn catalog_gem(i: int) -> Gem {
    if i == 0 {
        Gem { id: 1, name: "Ruby", shape: Shape::Circular, color: Color::Red, value: 3000 }
    } else if i == 1 {
        Gem { id: 2, name: "Sapphire", shape: Shape::Circular, color: Color::Blue, value: 4000 }
    } else if i == 2 {
        Gem { id: 3, name: "Yellow Diamond", shape: Shape::Circular, color: Color::Yellow, value: 7000 }
    } else if i == 3 {
        Gem { id: 4, name: "Emerald", shape: Shape::Rectangular, color: Color::Green, value: 5000 }
    } else if i == 4 {
        Gem { id: 5, name: "Alexandrite", shape: Shape::Rectangular, color: Color::Purple, value: 6000 }
    } else {
        Gem { id: 6, name: "Red Beryl", shape: Shape::Rectangular, color: Color::Red, value: 9000 }
    }
}

/// The treasure catalog entry at position `i`.
pub open spec fn catalog_treasure(i: int) -> Treasure {
    if i == 0 {
        Treasure { id: 1, name: "Flagon", sockets: (2, 0), value: 4000 }
    } else if i == 1 {
        Treasure { id: 2, name: "Splendid Bangle", sockets: (0, 2), value: 4000 }
    } else if i == 2 {
        Treasure { id: 3, name: "Elegant Bangle", sockets: (2, 0), value: 5000 }
    } else if i == 3 {
        Treasure { id: 4, name: "Elegant Mask", sockets: (3, 0), value: 5000 }
    } else if i == 4 {
        Treasure { id: 5, name: "Butterfly Lamp", sockets: (3, 0), value: 6000 }
    } else if i == 5 {
        Treasure { id: 6, name: "Chalice of Atonement", sockets: (0, 3), value: 7000 }
    } else if i == 6 {
        Treasure { id: 7, name: "Extravagant Clock", sockets: (1, 1), value: 9000 }
    } else if i == 7 {
        Treasure { id: 8, name: "Ornate Necklace", sockets: (2, 2), value: 11000 }
    } else if i == 8 {
        Treasure { id: 9, name: "Golden Lynx", sockets: (2, 1), value: 15000 }
    } else {
        Treasure { id: 10, name: "Elegant Crown", sockets: (2, 3), value: 19000 }
    }
}

/// A treasure whose capacity and base value lie within the catalog's ranges:
/// at most three sockets of each shape and a base value of at most 19000.
pub open spec fn catalog_sized(t: Treasure) -> bool {
    t.sockets.0 <= 3 && t.sockets.1 <= 3 && t.value <= 19000
}

/// Every catalog treasure is catalog-sized.
pub proof fn lemma_catalog_treasure_sized(i: int)
    requires
        0 <= i < 10,
    ensures
        catalog_sized(catalog_treasure(i)),
{
}

/// The gem type at catalog position `i`.
pub fn gem(i: usize) -> (g: Gem)
    requires
        i < GEM_KINDS,
    ensures
        g == catalog_gem(i as int),
{
    if i == 0 {
        Gem { id: 1, name: "Ruby", shape: Shape::Circular, color: Color::Red, value: 3000 }
    } else if i == 1 {
        Gem { id: 2, name: "Sapphire", shape: Shape::Circular, color: Color::Blue, value: 4000 }
    } else if i == 2 {
        Gem { id: 3, name: "Yellow Diamond", shape: Shape::Circular, color: Color::Yellow, value: 7000 }
    } else if i == 3 {
        Gem { id: 4, name: "Emerald", shape: Shape::Rectangular, color: Color::Green, value: 5000 }
    } else if i == 4 {
        Gem { id: 5, name: "Alexandrite", shape: Shape::Rectangular, color: Color::Purple, value: 6000 }
    } else {
        Gem { id: 6, name: "Red Beryl", shape: Shape::Rectangular, color: Color::Red, value: 9000 }
    }
}

/// The treasure type at catalog position `i`.
pub fn treasure(i: usize) -> (t: Treasure)
    requires
        i < TREASURE_KINDS,
    ensures
        t == catalog_treasure(i as int),
{
    if i == 0 {
        Treasure { id: 1, name: "Flagon", sockets: (2, 0), value: 4000 }
    } else if i == 1 {
        Treasure { id: 2, name: "Splendid Bangle", sockets: (0, 2), value: 4000 }
    } else if i == 2 {
        Treasure { id: 3, name: "Elegant Bangle", sockets: (2, 0), value: 5000 }
    } else if i == 3 {
        Treasure { id: 4, name: "Elegant Mask", sockets: (3, 0), value: 5000 }
    } else if i == 4 {
        Treasure { id: 5, name: "Butterfly Lamp", sockets: (3, 0), value: 6000 }
    } else if i == 5 {
        Treasure { id: 6, name: "Chalice of Atonement", sockets: (0, 3), value: 7000 }
    } else if i == 6 {
        Treasure { id: 7, name: "Extravagant Clock", sockets: (1, 1), value: 9000 }
    } else if i == 7 {
        Treasure { id: 8, name: "Ornate Necklace", sockets: (2, 2), value: 11000 }
    } else if i == 8 {
        Treasure { id: 9, name: "Golden Lynx", sockets: (2, 1), value: 15000 }
    } else {
        Treasure { id: 10, name: "Elegant Crown", sockets: (2, 3), value: 19000 }
    }
}

/// The whole gem catalog, in catalog order.
pub fn gems() -> (r: Vec<Gem>)
    ensures
        r@.len() == GEM_KINDS,
        forall|i: int| 0 <= i < GEM_KINDS ==> #[trigger] r@[i] == catalog_gem(i),
{
    let mut r: Vec<Gem> = Vec::with_capacity(GEM_KINDS);
    let mut i: usize = 0;
    while i < GEM_KINDS
        invariant
            i <= GEM_KINDS,
            r@.len() == i,
            forall|k: int| 0 <= k < i ==> #[trigger] r@[k] == catalog_gem(k),
        decreases GEM_KINDS - i,
    {
        r.push(gem(i));
        i = i + 1;
    }
    r
}

/// The whole treasure catalog, in catalog order.
pub fn treasures() -> (r: Vec<Treasure>)
    ensures
        r@.len() == TREASURE_KINDS,
        forall|i: int| 0 <= i < TREASURE_KINDS ==> #[trigger] r@[i] == catalog_treasure(i),
{
    let mut r: Vec<Treasure> = Vec::with_capacity(TREASURE_KINDS);
    let mut i: usize = 0;
    while i < TREASURE_KINDS
        invariant
            i <= TREASURE_KINDS,
            r@.len() == i,
            forall|k: int| 0 <= k < i ==> #[trigger] r@[k] == catalog_treasure(k),
        decreases TREASURE_KINDS - i,
    {
        r.push(treasure(i));
        i = i + 1;
    }
    r
}

} // verus!
