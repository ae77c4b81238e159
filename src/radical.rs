//! The catalog of radicals: atoms and functional groups that can be placed.

use vstd::prelude::*;

verus! {

/// A kind of atom or functional group.
#[derive(Debug, Clone, Copy, PartialEq, Eq, Structural, PartialOrd, Ord, Hash)]
pub enum UiRadical {
    F,
    Cl,
    Br,
    C,
    Amina,
    Eter,
    Fenol,
    Alcohol,
    Cetona,
    Aldehid,
    Nitril,
    Amida,
    Ester,
    Carboxil,
}

/// How many bonds a radical of kind `r` can take.
pub open spec fn valence_of(r: UiRadical) -> u32 {
    match r {
        UiRadical::C => 4,
        UiRadical::Cetona | UiRadical::Ester | UiRadical::Eter => 2,
        _ => 1,
    }
}

/// Whether the group holds a carbon atom.
pub open spec fn has_carbon(r: UiRadical) -> bool {
    match r {
        UiRadical::C | UiRadical::Fenol | UiRadical::Amida | UiRadical::Ester
        | UiRadical::Carboxil | UiRadical::Cetona | UiRadical::Aldehid
        | UiRadical::Nitril => true,
        _ => false,
    }
}

/// Whether the group holds a nitrogen atom.
pub open spec fn has_nitrogen(r: UiRadical) -> bool {
    match r {
        UiRadical::Amina | UiRadical::Amida | UiRadical::Nitril => true,
        _ => false,
    }
}

/// Whether the group holds an oxygen atom.
pub open spec fn has_oxygen(r: UiRadical) -> bool {
    match r {
        UiRadical::Carboxil | UiRadical::Ester | UiRadical::Cetona | UiRadical::Aldehid
        | UiRadical::Alcohol | UiRadical::Fenol | UiRadical::Eter => true,
        _ => false,
    }
}

/// The text shown for a radical of kind `r`.
pub open spec fn symbol_of(r: UiRadical) -> Seq<char> {
    match r {
        UiRadical::C => seq!['C'],
        UiRadical::F => seq!['F'],
        UiRadical::Cl => seq!['C', 'l'],
        UiRadical::Br => seq!['B', 'r'],
        UiRadical::Amina => seq!['N', 'H', '2'],
        UiRadical::Fenol => seq!['F', 'e', 'n', 'o', 'l'],
        UiRadical::Alcohol => seq!['O', 'H'],
        UiRadical::Cetona => seq!['C', 'O'],
        UiRadical::Aldehid => seq!['C', 'H', 'O'],
        UiRadical::Nitril => seq!['C', 'N'],
        UiRadical::Amida => seq!['C', 'O', 'N', 'H', '2'],
        UiRadical::Ester => seq!['C', 'O', 'O'],
        UiRadical::Carboxil => seq!['C', 'O', 'O', 'H'],
        UiRadical::Eter => seq!['O'],
    }
}

impl UiRadical {
    /// The bonding capacity of this kind.
    pub fn valencia(&self) -> (r: u32)
        ensures
            r == valence_of(*self),
            1 <= r <= 4,
    {
        match self {
            UiRadical::C => 4,
            UiRadical::F | UiRadical::Cl | UiRadical::Br => 1,
            UiRadical::Amina => 1,
            UiRadical::Fenol => 1,
            UiRadical::Alcohol => 1,
            UiRadical::Cetona => 2,
            UiRadical::Aldehid => 1,
            UiRadical::Nitril => 1,
            UiRadical::Amida => 1,
            UiRadical::Ester => 2,
            UiRadical::Carboxil => 1,
            UiRadical::Eter => 2,
        }
    }

    /// Whether this kind holds a carbon atom.
    pub fn contains_carbon(&self) -> (r: bool)
        ensures
            r == has_carbon(*self),
    {
        match self {
            UiRadical::C | UiRadical::Fenol | UiRadical::Amida | UiRadical::Ester
            | UiRadical::Carboxil | UiRadical::Cetona | UiRadical::Aldehid
            | UiRadical::Nitril => true,
            UiRadical::F | UiRadical::Cl | UiRadical::Br | UiRadical::Amina
            | UiRadical::Alcohol | UiRadical::Eter => false,
        }
    }

    /// Whether this kind holds a nitrogen atom.
    pub fn contains_nitrogen(&self) -> (r: bool)
        ensures
            r == has_nitrogen(*self),
    {
        match self {
            UiRadical::Amina | UiRadical::Amida | UiRadical::Nitril => true,
            UiRadical::F | UiRadical::Cl | UiRadical::Br | UiRadical::Alcohol
            | UiRadical::Eter | UiRadical::C | UiRadical::Fenol | UiRadical::Ester
            | UiRadical::Carboxil | UiRadical::Cetona | UiRadical::Aldehid => false,
        }
    }

    /// Whether this kind holds an oxygen atom.
    pub fn contains_oxygen(&self) -> (r: bool)
        ensures
            r == has_oxygen(*self),
    {
        match self {
            UiRadical::Carboxil | UiRadical::Ester | UiRadical::Cetona | UiRadical::Aldehid
            | UiRadical::Alcohol | UiRadical::Fenol | UiRadical::Eter => true,
            UiRadical::Amina | UiRadical::Amida | UiRadical::Nitril | UiRadical::F
            | UiRadical::Cl | UiRadical::Br | UiRadical::C => false,
        }
    }

    /// The display symbol of this kind.
    pub fn symbol(&self) -> (r: &'static str)
        ensures
            r@ == symbol_of(*self),
    {
        let s = match self {
            UiRadical::C => "C",
            UiRadical::F => "F",
            UiRadical::Cl => "Cl",
            UiRadical::Br => "Br",
            UiRadical::Amina => "NH2",
            UiRadical::Fenol => "Fenol",
            UiRadical::Alcohol => "OH",
            UiRadical::Cetona => "CO",
            UiRadical::Aldehid => "CHO",
            UiRadical::Nitril => "CN",
            UiRadical::Amida => "CONH2",
            UiRadical::Ester => "COO",
            UiRadical::Carboxil => "COOH",
            UiRadical::Eter => "O",
        };
        proof {
            reveal_strlit("C");
            reveal_strlit("F");
            reveal_strlit("Cl");
            reveal_strlit("Br");
            reveal_strlit("NH2");
            reveal_strlit("Fenol");
            reveal_strlit("OH");
            reveal_strlit("CO");
            reveal_strlit("CHO");
            reveal_strlit("CN");
            reveal_strlit("CONH2");
            reveal_strlit("COO");
            reveal_strlit("COOH");
            reveal_strlit("O");
        }
        s
    }
}

} // verus!
