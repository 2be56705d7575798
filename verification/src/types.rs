use vstd::prelude::*;

verus! {

/// The kinds of monster in a wave.
#[derive(Clone, Copy, Debug, PartialEq, Eq, Structural)]
pub enum MobType {
    Mager,
    Ranger,
    Meleer,
    Blob,
    Bat,
    Nibbler,
    BlobletMage,
    BlobletRange,
    BlobletMelee,
}

/// Attack styles.
#[derive(Clone, Copy, Debug, PartialEq, Eq, Structural)]
pub enum Style {
    Magic,
    Range,
    Melee,
    Blob,
}

/// Protection prayers.
#[derive(Clone, Copy, Debug, PartialEq, Eq, Structural)]
pub enum Prayer {
    Mage,
    Range,
    Melee,
}

/// Which of the three pillars stand.
#[derive(Clone, Copy, Debug, PartialEq, Eq, Structural)]
pub struct PillarConfig {
    pub s: bool,
    pub w: bool,
    pub n: bool,
}

/// A tile.
#[derive(Clone, Copy, Debug, PartialEq, Eq, Structural)]
pub struct Point {
    pub x: i32,
    pub y: i32,
}

/// A square obstacle whose top-left tile is `(x, y)`; it covers columns
/// `x..x+size` and rows `y-size+1..=y`.
#[derive(Clone, Copy, Debug, PartialEq, Eq, Structural)]
pub struct Entity {
    pub x: i32,
    pub y: i32,
    pub size: i32,
}

impl Default for PillarConfig {
    fn default() -> (r: Self)
        ensures
            !r.s && !r.w && !r.n,
    {
        PillarConfig { s: false, w: false, n: false }
    }
}

/// The table index of a monster kind.
pub open spec fn mob_type_index(t: MobType) -> nat {
    match t {
        MobType::Mager => 0,
        MobType::Ranger => 1,
        MobType::Meleer => 2,
        MobType::Blob => 3,
        MobType::Bat => 4,
        MobType::Nibbler => 5,
        MobType::BlobletMage => 6,
        MobType::BlobletRange => 7,
        MobType::BlobletMelee => 8,
    }
}

/// The spawn-code letter meaning: a monster kind, an empty slot (`Some(None)`),
/// or no meaning (`None`).
pub open spec fn mob_code_meaning(ch: char) -> Option<Option<MobType>> {
    if ch == 'M' { Some(Some(MobType::Mager)) }
    else if ch == 'R' { Some(Some(MobType::Ranger)) }
    else if ch == 'X' { Some(Some(MobType::Meleer)) }
    else if ch == 'B' { Some(Some(MobType::Blob)) }
    else if ch == 'Y' { Some(Some(MobType::Bat)) }
    else if ch == 'O' { Some(None) }
    else { None }
}

/// The key under which a monster kind appears in loadout tables.
pub open spec fn mob_js_key(t: MobType) -> Seq<char> {
    match t {
        MobType::Mager => "mager"@,
        MobType::Ranger => "ranger"@,
        MobType::Meleer => "meleer"@,
        MobType::Blob => "blob"@,
        MobType::Bat => "bat"@,
        MobType::Nibbler => "nibbler"@,
        MobType::BlobletMage => "blobletMage"@,
        MobType::BlobletRange => "blobletRange"@,
        MobType::BlobletMelee => "blobletMelee"@,
    }
}

/// Every monster kind, in table-index order.
pub open spec fn all_mob_types() -> Seq<MobType> {
    seq![
        MobType::Mager,
        MobType::Ranger,
        MobType::Meleer,
        MobType::Blob,
        MobType::Bat,
        MobType::Nibbler,
        MobType::BlobletMage,
        MobType::BlobletRange,
        MobType::BlobletMelee,
    ]
}

impl MobType {
    /// Table index of the kind.
    pub fn idx(self) -> (r: usize)
        ensures
            r == mob_type_index(self),
            r < 9,
    {
        match self {
            MobType::Mager => 0,
            MobType::Ranger => 1,
            MobType::Meleer => 2,
            MobType::Blob => 3,
            MobType::Bat => 4,
            MobType::Nibbler => 5,
            MobType::BlobletMage => 6,
            MobType::BlobletRange => 7,
            MobType::BlobletMelee => 8,
        }
    }

    /// Meaning of a spawn-code letter.
    pub fn from_code(ch: char) -> (r: Option<Option<MobType>>)
        ensures
            r == mob_code_meaning(ch),
    {
        match ch {
            'M' => Some(Some(MobType::Mager)),
            'R' => Some(Some(MobType::Ranger)),
            'X' => Some(Some(MobType::Meleer)),
            'B' => Some(Some(MobType::Blob)),
            'Y' => Some(Some(MobType::Bat)),
            'O' => Some(None),
            _ => None,
        }
    }

    /// Loadout-table key of the kind.
    pub fn js_key(self) -> (r: &'static str)
        ensures
            r@ == mob_js_key(self),
    {
        match self {
            MobType::Mager => {
                proof { reveal_strlit("mager"); }
                "mager"
            },
            MobType::Ranger => {
                proof { reveal_strlit("ranger"); }
                "ranger"
            },
            MobType::Meleer => {
                proof { reveal_strlit("meleer"); }
                "meleer"
            },
            MobType::Blob => {
                proof { reveal_strlit("blob"); }
                "blob"
            },
            MobType::Bat => {
                proof { reveal_strlit("bat"); }
                "bat"
            },
            MobType::Nibbler => {
                proof { reveal_strlit("nibbler"); }
                "nibbler"
            },
            MobType::BlobletMage => {
                proof { reveal_strlit("blobletMage"); }
                "blobletMage"
            },
            MobType::BlobletRange => {
                proof { reveal_strlit("blobletRange"); }
                "blobletRange"
            },
            MobType::BlobletMelee => {
                proof { reveal_strlit("blobletMelee"); }
                "blobletMelee"
            },
        }
    }

    /// All kinds, in table-index order.
    pub fn all() -> (r: [MobType; 9])
        ensures
            r@ == all_mob_types(),
    {
        let r = [
            MobType::Mager,
            MobType::Ranger,
            MobType::Meleer,
            MobType::Blob,
            MobType::Bat,
            MobType::Nibbler,
            MobType::BlobletMage,
            MobType::BlobletRange,
            MobType::BlobletMelee,
        ];
        assert(r@ =~= all_mob_types());
        r
    }
}

/// The name of a prayer.
pub open spec fn prayer_name(p: Prayer) -> Seq<char> {
    match p {
        Prayer::Mage => "mage"@,
        Prayer::Range => "range"@,
        Prayer::Melee => "melee"@,
    }
}

impl Prayer {
    /// The name of the prayer.
    pub fn as_str(self) -> (r: &'static str)
        ensures
            r@ == prayer_name(self),
    {
        match self {
            Prayer::Mage => {
                proof { reveal_strlit("mage"); }
                "mage"
            },
            Prayer::Range => {
                proof { reveal_strlit("range"); }
                "range"
            },
            Prayer::Melee => {
                proof { reveal_strlit("melee"); }
                "melee"
            },
        }
    }
}

/// Table index of a kind read back: `table_index` and `all()` agree.
pub proof fn lemma_all_mob_types_indexed(i: int)
    requires
        0 <= i < 9,
    ensures
        mob_type_index(all_mob_types()[i]) == i,
{
}

} // verus!
