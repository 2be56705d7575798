use vstd::prelude::*;

use crate::constants::{spawn_location, spawn_location_spec};
use crate::types::{MobType, mob_code_meaning};

verus! {

/// One position of a spawn code: the monster kind (or none), its spawn tile and
/// its inference number (0 when unknown).
#[derive(Clone, Copy, Debug, PartialEq, Eq, Structural)]
pub struct Spawn {
    pub mob_type: Option<MobType>,
    pub x: i32,
    pub y: i32,
    pub inf_num: i32,
}

/// A parsed spawn code, and whether it carried any inference number.
#[derive(Debug)]
pub struct ParsedSpawnCode {
    pub spawns: Vec<Spawn>,
    pub has_index_info: bool,
}

/// Which of the three big monster kinds a wave holds.
#[derive(Clone, Copy, Debug, PartialEq, Eq, Structural)]
pub struct WaveFlags {
    pub has_mager: bool,
    pub has_ranger: bool,
    pub has_meleer: bool,
}

/// What `str::trim` returns for a string.
pub uninterp spec fn trimmed(s: Seq<char>) -> Seq<char>;

/// What `str::to_uppercase` returns for a string.
pub uninterp spec fn uppercased(s: Seq<char>) -> Seq<char>;

/// The decimal digit `d`.
pub open spec fn digit_char(d: nat) -> char {
    (48 + d) as char
}

/// The decimal digits of `n`, without leading zeros.
pub open spec fn decimal(n: nat) -> Seq<char>
    decreases n,
{
    if n < 10 {
        seq![digit_char(n)]
    } else {
        decimal(n / 10).push(digit_char(n % 10))
    }
}

/// The message of an unknown letter `ch` at 1-based position `pos`:
/// `Unknown '<ch>' at pos <pos>`.
pub open spec fn unknown_code_message(ch: char, pos: usize) -> Seq<char> {
    seq!['U', 'n', 'k', 'n', 'o', 'w', 'n', ' ', '\''] + seq![ch]
        + seq!['\'', ' ', 'a', 't', ' ', 'p', 'o', 's', ' '] + decimal(pos as nat)
}

/// `str::trim`: the string without leading and trailing whitespace.
#[verifier::external_body]
fn str_trim(s: &str) -> (r: &str)
    ensures
        r@ == trimmed(s@),
{
    s.trim()
}

/// `str::to_uppercase`: the upper-case form of the string.
#[verifier::external_body]
fn str_to_uppercase(s: &str) -> (r: String)
    ensures
        r@ == uppercased(s@),
{
    s.to_uppercase()
}

/// `format!` of the unknown-letter message: `Unknown '<ch>' at pos <pos>`.
#[verifier::external_body]
fn unknown_code_error(ch: char, pos: usize) -> (r: String)
    ensures
        r@ == unknown_code_message(ch, pos),
{
    format!("Unknown '{}' at pos {}", ch, pos)
}

/// The characters of a spawn code, as the parser reads them.
pub open spec fn normalized_code(code: Seq<char>) -> Seq<char> {
    uppercased(trimmed(code))
}

/// Whether a character is an inference digit `1`..=`9`.
pub open spec fn is_inf_digit(c: char) -> bool {
    '1' <= c <= '9'
}

/// Reads positions from character `i` on, position `pos` onwards: each position is a
/// letter optionally followed by an inference digit; at most nine positions are read.
/// The error is an unknown letter with its 1-based character position.
pub open spec fn scan_spawns(chars: Seq<char>, i: int, pos: int) -> Result<Seq<Spawn>, (char, int)>
    decreases chars.len() - i,
{
    if i < 0 || i >= chars.len() || pos >= 9 || pos < 0 {
        Ok(Seq::empty())
    } else {
        match mob_code_meaning(chars[i]) {
            None => Err((chars[i], i + 1)),
            Some(t) => {
                let has_digit = i + 1 < chars.len() && is_inf_digit(chars[i + 1]);
                let n: int = if has_digit { chars[i + 1] as int - '0' as int } else { 0 };
                let next: int = if has_digit { i + 2 } else { i + 1 };
                let loc = spawn_location_spec(pos);
                let s = Spawn { mob_type: t, x: loc.0 as i32, y: loc.1 as i32, inf_num: n as i32 };
                match scan_spawns(chars, next, pos + 1) {
                    Ok(rest) => Ok(seq![s] + rest),
                    Err(e) => Err(e),
                }
            },
        }
    }
}

/// A spawn holds a monster.
pub open spec fn holds_mob(s: Spawn) -> bool {
    s.mob_type is Some
}

/// The monsters of the spawns that hold one, in order.
pub open spec fn spawned_mobs(spawns: Seq<Spawn>) -> Seq<Spawn> {
    spawns.filter(|s: Spawn| holds_mob(s))
}

/// A spawn holds a monster whose inference number is known.
pub open spec fn has_inf(s: Spawn) -> bool {
    s.mob_type is Some && s.inf_num > 0
}

/// A spawn holds a monster whose inference number is missing.
pub open spec fn lacks_inf(s: Spawn) -> bool {
    s.mob_type is Some && s.inf_num == 0
}

/// Inference numbers `1..=min(count of monsters, 9)` that no monster carries, largest first.
pub open spec fn missing_inf_numbers(spawns: Seq<Spawn>) -> Seq<i32> {
    let top = min_int(spawns.filter(|s: Spawn| holds_mob(s)).len() as int, 9);
    Seq::new(top as nat, |k: int| (top - k) as i32).filter(|n: i32| !inf_used(spawns, n))
}

/// Whether some monster carries inference number `n`.
pub open spec fn inf_used(spawns: Seq<Spawn>, n: i32) -> bool {
    exists|j: int| 0 <= j < spawns.len() && #[trigger] has_inf(spawns[j]) && spawns[j].inf_num == n
}

/// Taking one more item of a sequence extends its filter by that item when it passes.
pub proof fn lemma_take_filter<A>(s: Seq<A>, p: spec_fn(A) -> bool, j: int)
    requires
        0 <= j < s.len(),
    ensures
        s.take(j + 1).filter(p) == if p(s[j]) { s.take(j).filter(p).push(s[j]) } else { s.take(j).filter(p) },
{
    reveal_with_fuel(Seq::<_>::filter, 1);
    assert(s.take(j + 1).drop_last() =~= s.take(j));
}

/// Smaller of two integers.
pub open spec fn min_int(a: int, b: int) -> int {
    if a <= b { a } else { b }
}

/// The spawns after filling missing inference numbers: the `k`-th monster (in order)
/// lacking one gets the `k`-th missing number, while missing numbers last.
pub open spec fn fill_inf_numbers(spawns: Seq<Spawn>, missing: Seq<i32>) -> Seq<Spawn> {
    Seq::new(spawns.len(), |j: int| {
        let k = spawns.take(j).filter(|s: Spawn| lacks_inf(s)).len();
        if lacks_inf(spawns[j]) && k < missing.len() {
            Spawn { inf_num: missing[k as int], ..spawns[j] }
        } else {
            spawns[j]
        }
    })
}

/// The parse of a spawn code: an error message, or the spawns (with missing inference
/// numbers filled when any number was given) and whether any number was given.
pub open spec fn parse_spawn_code_spec(code: Seq<char>) -> Result<(Seq<Spawn>, bool), Seq<char>> {
    parse_normalized_spec(normalized_code(code))
}

/// What an already trimmed and upper-cased spawn code reads as: an error when it is
/// empty or holds an unknown letter, else its positions, with the missing inference
/// numbers filled in when any is given.
pub open spec fn parse_normalized_spec(chars: Seq<char>) -> Result<(Seq<Spawn>, bool), Seq<char>> {
    if chars.len() == 0 {
        Err("Enter a spawn code"@)
    } else {
        match scan_spawns(chars, 0, 0) {
            Err((ch, p)) => Err(unknown_code_message(ch, p as usize)),
            Ok(spawns) => {
                let info = exists|j: int| 0 <= j < spawns.len() && #[trigger] has_inf(spawns[j]);
                if info {
                    Ok((fill_inf_numbers(spawns, missing_inf_numbers(spawns)), true))
                } else {
                    Ok((spawns, false))
                }
            },
        }
    }
}

pub proof fn lemma_scan_props(chars: Seq<char>, i: int, pos: int)
    requires
        0 <= pos <= 9,
    ensures
        scan_spawns(chars, i, pos) matches Ok(sp) ==> sp.len() <= 9 - pos
            && forall|j: int| 0 <= j < sp.len() ==> 0 <= (#[trigger] sp[j]).inf_num <= 9
                && 0 <= sp[j].x < 64 && 0 <= sp[j].y < 64,
    decreases chars.len() - i,
{
    if i < 0 || i >= chars.len() || pos >= 9 {
    } else {
        match mob_code_meaning(chars[i]) {
            None => {},
            Some(t) => {
                let has_digit = i + 1 < chars.len() && is_inf_digit(chars[i + 1]);
                let next: int = if has_digit { i + 2 } else { i + 1 };
                lemma_scan_props(chars, next, pos + 1);
                if let Ok(sp) = scan_spawns(chars, i, pos) {
                    let rest = scan_spawns(chars, next, pos + 1)->Ok_0;
                    assert forall|j: int| 0 <= j < sp.len() implies 0 <= (#[trigger] sp[j]).inf_num <= 9
                        && 0 <= sp[j].x < 64 && 0 <= sp[j].y < 64 by {
                        if j > 0 { assert(sp[j] == rest[j - 1]); }
                    }
                }
            },
        }
    }
}

/// Parses a spawn code: trims it, upper-cases it, reads up to nine positions, and when
/// any inference number is given assigns the missing numbers to the monsters lacking one.
pub fn parse_spawn_code(code: &str) -> (r: Result<ParsedSpawnCode, String>)
    ensures
        match parse_spawn_code_spec(code@) {
            Ok((spawns, info)) => r matches Ok(p) && p.spawns@ == spawns && p.has_index_info == info,
            Err(msg) => r matches Err(e) && e@ == msg,
        },
{
    let trimmed_code: &str = str_trim(code);
    let upper: String = str_to_uppercase(trimmed_code);
    let mut chars: Vec<char> = Vec::new();
    for ch in it: upper.as_str().chars()
        invariant
            chars@ == it.seq().take(it.index() as int),
    {
        chars.push(ch);
    }
    assert(chars@ =~= upper@);
    assert(chars@ =~= normalized_code(code@));
    parse_normalized_spawn_code(&chars)
}

/// Parses a trimmed, upper-cased spawn code given as its characters: reads up to nine
/// positions, and when any inference number is given assigns the missing numbers to
/// the monsters lacking one.
pub fn parse_normalized_spawn_code(chars: &Vec<char>) -> (r: Result<ParsedSpawnCode, String>)
    ensures
        match parse_normalized_spec(chars@) {
            Ok((spawns, info)) => r matches Ok(p) && p.spawns@ == spawns && p.has_index_info == info,
            Err(msg) => r matches Err(e) && e@ == msg,
        },
{
    if chars.len() == 0 {
        let e: String = "Enter a spawn code".to_string();
        proof {
            vstd::string::to_string_from_display_ensures_for_str("Enter a spawn code", e);
        }
        return Err(e);
    }
    let ghost cs = chars@;
    let mut spawns: Vec<Spawn> = Vec::new();
    let mut i: usize = 0;
    let mut pos: usize = 0;
    while i < chars.len() && pos < 9
        invariant
            cs == chars@,
            cs.len() != 0,
            i <= chars@.len(),
            pos <= 9,
            spawns@.len() == pos,
            scan_spawns(cs, 0, 0) == match scan_spawns(cs, i as int, pos as int) {
                Ok(rest) => Ok(spawns@ + rest),
                Err(e) => Err::<Seq<Spawn>, (char, int)>(e),
            },
        decreases chars@.len() - i,
    {
        let ch: char = chars[i];
        let mob_type: Option<MobType> = match MobType::from_code(ch) {
            Some(t) => t,
            None => {
                assert(scan_spawns(cs, 0, 0) == Err::<Seq<Spawn>, (char, int)>((ch, i + 1)));
                assert(cs.len() != 0);
                let ghost p: int = i + 1;
                assert(parse_normalized_spec(cs) == Err::<(Seq<Spawn>, bool), Seq<char>>(unknown_code_message(ch, p as usize)));
                return Err(unknown_code_error(ch, i + 1));
            },
        };
        i = i + 1;
        let mut inf_num: i32 = 0;
        if i < chars.len() && '1' <= chars[i] && chars[i] <= '9' {
            inf_num = (chars[i] as u32 - '0' as u32) as i32;
            i = i + 1;
        }
        let (x, y) = spawn_location(pos);
        let sp = Spawn { mob_type, x, y, inf_num };
        proof {
            let old_spawns = spawns@;
            match scan_spawns(cs, i as int, pos + 1) {
                Ok(rest) => {
                    assert(old_spawns + (seq![sp] + rest) =~= old_spawns.push(sp) + rest);
                },
                Err(e) => {},
            }
        }
        spawns.push(sp);
        pos = pos + 1;
    }
    assert(spawns@ + Seq::<Spawn>::empty() =~= spawns@);
    let ghost scanned = spawns@;
    assert(scan_spawns(cs, 0, 0) == Ok::<Seq<Spawn>, (char, int)>(scanned));
    proof { lemma_scan_props(cs, 0, 0); }

    let mut has_index_info: bool = false;
    let mut k: usize = 0;
    while k < spawns.len()
        invariant
            spawns@ == scanned,
            k <= scanned.len(),
            has_index_info == exists|j: int| 0 <= j < k && #[trigger] has_inf(scanned[j]),
        decreases scanned.len() - k,
    {
        if spawns[k].mob_type.is_some() && spawns[k].inf_num > 0 {
            has_index_info = true;
            assert(has_inf(scanned[k as int]));
        }
        assert((exists|j: int| 0 <= j < k + 1 && #[trigger] has_inf(scanned[j]))
            == ((exists|j: int| 0 <= j < k && #[trigger] has_inf(scanned[j])) || has_inf(scanned[k as int])));
        k = k + 1;
    }
    if has_index_info {
        let mut used: [bool; 10] = [false; 10];
        let mut non_nothing: usize = 0;
        let mut k: usize = 0;
        while k < spawns.len()
            invariant
                spawns@ == scanned,
                scanned.len() <= 9,
                forall|j: int| 0 <= j < scanned.len() ==> 0 <= (#[trigger] scanned[j]).inf_num <= 9,
                k <= scanned.len(),
                non_nothing == scanned.take(k as int).filter(|s: Spawn| holds_mob(s)).len(),
                forall|n: int| 1 <= n < 10 ==> #[trigger] used@[n] == exists|j: int| 0 <= j < k && #[trigger] has_inf(scanned[j]) && scanned[j].inf_num == n,
            decreases scanned.len() - k,
        {
            proof {
                lemma_take_filter(scanned, |s: Spawn| holds_mob(s), k as int);
                scanned.take(k as int).filter(|s: Spawn| holds_mob(s)).lemma_filter_len(|s: Spawn| holds_mob(s));
            }
            let s: Spawn = spawns[k];
            if s.mob_type.is_some() {
                non_nothing = non_nothing + 1;
            }
            let ghost used_before = used@;
            if s.mob_type.is_some() && s.inf_num > 0 && (s.inf_num as usize) < 10 {
                used[s.inf_num as usize] = true;
            }
            proof {
                assert forall|n: int| 1 <= n < 10 implies #[trigger] used@[n] == exists|j: int| 0 <= j < k + 1 && #[trigger] has_inf(scanned[j]) && scanned[j].inf_num == n by {
                    assert(used_before[n] == exists|j: int| 0 <= j < k && #[trigger] has_inf(scanned[j]) && scanned[j].inf_num == n);
                    if has_inf(scanned[k as int]) && scanned[k as int].inf_num == n {
                        assert(used@[n]);
                    }
                }
            }
            k = k + 1;
        }
        assert(scanned.take(scanned.len() as int) =~= scanned);
        let top: usize = if non_nothing < 9 { non_nothing } else { 9 };
        let ghost missing_all = Seq::new(top as nat, |k: int| (top - k) as i32);
        let ghost notused = |n: i32| !inf_used(scanned, n);
        let mut remaining: Vec<i32> = Vec::new();
        let mut k: usize = 0;
        while k < top
            invariant
                top <= 9,
                k <= top,
                missing_all == Seq::new(top as nat, |k: int| (top - k) as i32),
                notused == |n: i32| !inf_used(scanned, n),
                forall|n: int| 1 <= n < 10 ==> #[trigger] used@[n] == inf_used(scanned, n as i32),
                remaining@ == missing_all.take(k as int).filter(notused),
                remaining@.len() <= k,
            decreases top - k,
        {
            proof {
                lemma_take_filter(missing_all, notused, k as int);
                missing_all.take(k as int).filter(notused).lemma_filter_len(notused);
            }
            let n: usize = top - k;
            if !used[n] {
                remaining.push(n as i32);
            }
            k = k + 1;
        }
        assert(missing_all.take(top as int) =~= missing_all);
        assert(remaining@ == missing_inf_numbers(scanned));
        let ghost missing = remaining@;
        let mut ri: usize = 0;
        let mut j: usize = 0;
        while j < spawns.len()
            invariant
                scanned.len() == spawns@.len(),
                j <= scanned.len(),
                missing == remaining@,
                ri == min_int(scanned.take(j as int).filter(|s: Spawn| lacks_inf(s)).len() as int, missing.len() as int),
                forall|t: int| 0 <= t < j ==> #[trigger] spawns@[t] == fill_inf_numbers(scanned, missing)[t],
                forall|t: int| j <= t < scanned.len() ==> #[trigger] spawns@[t] == scanned[t],
            decreases scanned.len() - j,
        {
            proof {
                lemma_take_filter(scanned, |s: Spawn| lacks_inf(s), j as int);
            }
            let mut s: Spawn = spawns[j];
            if s.mob_type.is_some() && s.inf_num == 0 && ri < remaining.len() {
                s.inf_num = remaining[ri];
                spawns.set(j, s);
                ri = ri + 1;
            }
            j = j + 1;
        }
        assert(spawns@ =~= fill_inf_numbers(scanned, missing));
        assert(parse_normalized_spec(cs) == Ok::<(Seq<Spawn>, bool), Seq<char>>((spawns@, has_index_info)));
    } else {
        assert(parse_normalized_spec(cs) == Ok::<(Seq<Spawn>, bool), Seq<char>>((spawns@, has_index_info)));
    }
    Ok(ParsedSpawnCode { spawns, has_index_info })
}

/// Which of the three big kinds occur among the spawns.
pub open spec fn wave_flags_spec(spawns: Seq<Spawn>) -> WaveFlags {
    WaveFlags {
        has_mager: exists|j: int| 0 <= j < spawns.len() && #[trigger] spawns[j].mob_type == Some(MobType::Mager),
        has_ranger: exists|j: int| 0 <= j < spawns.len() && #[trigger] spawns[j].mob_type == Some(MobType::Ranger),
        has_meleer: exists|j: int| 0 <= j < spawns.len() && #[trigger] spawns[j].mob_type == Some(MobType::Meleer),
    }
}

/// Which of the mager, ranger and meleer a wave holds.
pub fn wave_flags(parsed: &ParsedSpawnCode) -> (r: WaveFlags)
    ensures
        r == wave_flags_spec(parsed.spawns@),
{
    let mut flags = WaveFlags { has_mager: false, has_ranger: false, has_meleer: false };
    let mut k: usize = 0;
    while k < parsed.spawns.len()
        invariant
            k <= parsed.spawns@.len(),
            flags == wave_flags_spec(parsed.spawns@.take(k as int)),
        decreases parsed.spawns@.len() - k,
    {
        let ghost pre = parsed.spawns@.take(k as int);
        let ghost post = parsed.spawns@.take(k + 1);
        assert(post =~= pre.push(parsed.spawns@[k as int]));
        match parsed.spawns[k].mob_type {
            Some(MobType::Mager) => flags.has_mager = true,
            Some(MobType::Ranger) => flags.has_ranger = true,
            Some(MobType::Meleer) => flags.has_meleer = true,
            _ => {},
        }
        proof {
            assert((exists|j: int| 0 <= j < post.len() && #[trigger] post[j].mob_type == Some(MobType::Mager))
                == ((exists|j: int| 0 <= j < pre.len() && #[trigger] pre[j].mob_type == Some(MobType::Mager)) || post[k as int].mob_type == Some(MobType::Mager))) by {
                if post[k as int].mob_type != Some(MobType::Mager) {
                    assert forall|j: int| 0 <= j < post.len() && #[trigger] post[j].mob_type == Some(MobType::Mager) implies 0 <= j < pre.len() && pre[j].mob_type == Some(MobType::Mager) by {}
                }
            }
            assert((exists|j: int| 0 <= j < post.len() && #[trigger] post[j].mob_type == Some(MobType::Ranger))
                == ((exists|j: int| 0 <= j < pre.len() && #[trigger] pre[j].mob_type == Some(MobType::Ranger)) || post[k as int].mob_type == Some(MobType::Ranger))) by {
                if post[k as int].mob_type != Some(MobType::Ranger) {
                    assert forall|j: int| 0 <= j < post.len() && #[trigger] post[j].mob_type == Some(MobType::Ranger) implies 0 <= j < pre.len() && pre[j].mob_type == Some(MobType::Ranger) by {}
                }
            }
            assert((exists|j: int| 0 <= j < post.len() && #[trigger] post[j].mob_type == Some(MobType::Meleer))
                == ((exists|j: int| 0 <= j < pre.len() && #[trigger] pre[j].mob_type == Some(MobType::Meleer)) || post[k as int].mob_type == Some(MobType::Meleer))) by {
                if post[k as int].mob_type != Some(MobType::Meleer) {
                    assert forall|j: int| 0 <= j < post.len() && #[trigger] post[j].mob_type == Some(MobType::Meleer) implies 0 <= j < pre.len() && pre[j].mob_type == Some(MobType::Meleer) by {}
                }
            }
        }
        k = k + 1;
    }
    assert(parsed.spawns@.take(k as int) =~= parsed.spawns@);
    flags
}

/// A wave with no monster at all, played with at least one pillar standing.
pub open spec fn is_empty_wave_spec(spawns: Seq<Spawn>, p: crate::types::PillarConfig) -> bool {
    (forall|j: int| 0 <= j < spawns.len() ==> (#[trigger] spawns[j]).mob_type is None) && (p.s || p.w || p.n)
}

/// Whether the wave holds no monster while some pillar stands.
pub fn is_empty_wave(parsed: &ParsedSpawnCode, pillar_config: crate::types::PillarConfig) -> (r: bool)
    ensures
        r == is_empty_wave_spec(parsed.spawns@, pillar_config),
{
    let mut all_none: bool = true;
    let mut k: usize = 0;
    while k < parsed.spawns.len()
        invariant
            k <= parsed.spawns@.len(),
            all_none == forall|j: int| 0 <= j < k ==> (#[trigger] parsed.spawns@[j]).mob_type is None,
        decreases parsed.spawns@.len() - k,
    {
        if parsed.spawns[k].mob_type.is_some() {
            all_none = false;
        }
        k = k + 1;
    }
    all_none && (pillar_config.s || pillar_config.w || pillar_config.n)
}

/// A spawn code that parses gives at most nine spawns, each on a tile of the board.
pub proof fn lemma_parsed_spawns_on_board(code: Seq<char>)
    ensures
        parse_spawn_code_spec(code) matches Ok((spawns, _)) ==> spawns.len() <= 9
            && forall|k: int| 0 <= k < spawns.len() ==> 0 <= (#[trigger] spawns[k]).x < 64 && 0 <= spawns[k].y < 64,
{
    let chars = normalized_code(code);
    lemma_scan_props(chars, 0, 0);
    if let Ok(sp) = scan_spawns(chars, 0, 0) {
        let filled = fill_inf_numbers(sp, missing_inf_numbers(sp));
        assert forall|k: int| 0 <= k < filled.len() implies 0 <= (#[trigger] filled[k]).x < 64 && 0 <= filled[k].y < 64 by {
            assert(filled[k].x == sp[k].x && filled[k].y == sp[k].y);
        }
    }
}

/// Parsing reads a code only through its trimmed, upper-cased form: codes that agree
/// there parse alike.
pub proof fn lemma_parse_reads_normalized(a: Seq<char>, b: Seq<char>)
    requires
        normalized_code(a) == normalized_code(b),
    ensures
        parse_spawn_code_spec(a) == parse_spawn_code_spec(b),
{
}

} // verus!
