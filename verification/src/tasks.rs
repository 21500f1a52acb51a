//! One rename task applied to one target path. The specification
//! `task_step` is the single source of truth for every transform's effect;
//! `apply_task` computes it. A transform always works on the path's name
//! part and leaves the directory part alone.

use vstd::prelude::*;
use crate::bridge;
use crate::model::{CivilDateTime, Task};
use crate::numeral::{padded_dec, signed_digits};
use crate::numeral;
use crate::pathname::{file_name_of, with_name, stem_of, ext_of, has_ext, sentinel};
use crate::pathname;
use crate::text;

verus! {

/// The core of a new name with the old name's extension re-attached, when
/// there is one.
pub open spec fn attach_ext(core: Seq<char>, name: Seq<char>) -> Seq<char> {
    if has_ext(name) {
        core + seq!['.'] + ext_of(name)
    } else {
        core
    }
}

/// The pieces joined by a separator.
pub open spec fn join_parts(parts: Seq<Seq<char>>, sep: Seq<char>) -> Seq<char>
    decreases parts.len(),
{
    if parts.len() == 0 {
        Seq::empty()
    } else if parts.len() == 1 {
        parts[0]
    } else {
        parts[0] + sep + join_parts(parts.drop_first(), sep)
    }
}

/// The last two characters, or the whole run when it is shorter.
pub open spec fn last_two(s: Seq<char>) -> Seq<char> {
    if s.len() > 2 {
        s.skip(s.len() - 2)
    } else {
        s
    }
}

/// The date components a date task selects: the year rendered whole for
/// mode 0 and cut to its last two characters for mode 1 (any other mode
/// omits it), then the zero-padded month and day when their flags are set.
pub open spec fn date_parts(year: u8, month: bool, day: bool, c: CivilDateTime) -> Seq<Seq<char>> {
    (if year == 0 {
        seq![signed_digits(c.year as int)]
    } else if year == 1 {
        seq![last_two(signed_digits(c.year as int))]
    } else {
        Seq::empty()
    }) + (if month {
        seq![padded_dec(c.month as nat, 2)]
    } else {
        Seq::empty()
    }) + (if day {
        seq![padded_dec(c.day as nat, 2)]
    } else {
        Seq::empty()
    })
}

/// The clock block of a time task: hour, minute and second, each two
/// digits, joined by the separator.
pub open spec fn time_block(c: CivilDateTime, sep: Seq<char>) -> Seq<char> {
    padded_dec(c.hour as nat, 2) + sep + padded_dec(c.minute as nat, 2) + sep + padded_dec(
        c.second as nat,
        2,
    )
}

/// A block placed before or after the stem with the separator between.
pub open spec fn place_block(
    block: Seq<char>,
    sep: Seq<char>,
    name: Seq<char>,
    at_start: bool,
) -> Seq<char> {
    if at_start {
        attach_ext(block + sep + stem_of(name), name)
    } else {
        attach_ext(stem_of(name) + sep + block, name)
    }
}

/// The effect of one task on one target path. `index` is the file's
/// position in the working list; `civil` is the calendar form of the
/// file's modification stamp, when it could be read.
pub open spec fn task_step(
    t: Seq<char>,
    task: Task,
    index: nat,
    civil: Option<CivilDateTime>,
) -> Seq<char> {
    match task {
        Task::CustomText { text, at_start, active } => {
            if !active {
                t
            } else {
                let name = file_name_of(t);
                let core = if at_start {
                    text@ + stem_of(name)
                } else {
                    stem_of(name) + text@
                };
                with_name(t, attach_ext(core, name))
            }
        },
        Task::FindAndReplace { find_text, replace_text, active } => {
            if !active {
                t
            } else {
                let name = file_name_of(t);
                if name == sentinel() {
                    t
                } else {
                    let replaced = text::replace_all(name, find_text@, replace_text@);
                    with_name(t, if replaced.len() == 0 {
                        sentinel()
                    } else {
                        replaced
                    })
                }
            }
        },
        Task::ClearAll { active } => {
            if !active {
                t
            } else {
                let name = file_name_of(t);
                if has_ext(name) {
                    with_name(t, seq!['.'] + ext_of(name))
                } else {
                    with_name(t, sentinel())
                }
            }
        },
        Task::ChangeCase { case_choice, active } => {
            if !active {
                t
            } else if case_choice == 0 {
                with_name(t, bridge::lower_of(file_name_of(t)))
            } else if case_choice == 1 {
                with_name(t, bridge::upper_of(file_name_of(t)))
            } else {
                t
            }
        },
        Task::NumSequence { start_num, num_padding, at_start, separator, active } => {
            if !active {
                t
            } else {
                let name = file_name_of(t);
                let num = padded_dec(index + start_num as nat, num_padding as nat);
                with_name(t, place_block(num, separator@, name, at_start))
            }
        },
        Task::Date { year, month, day, at_start, separator, active } => {
            if !active || civil is None {
                t
            } else {
                let name = file_name_of(t);
                let block = join_parts(date_parts(year, month, day, civil->Some_0), separator@);
                with_name(t, place_block(block, separator@, name, at_start))
            }
        },
        Task::Time { at_start, separator, active } => {
            if !active || civil is None {
                t
            } else {
                let name = file_name_of(t);
                let block = time_block(civil->Some_0, separator@);
                with_name(t, place_block(block, separator@, name, at_start))
            }
        },
    }
}

pub proof fn lemma_join_parts_snoc(parts: Seq<Seq<char>>, p: Seq<char>, sep: Seq<char>)
    requires
        parts.len() >= 1,
    ensures
        join_parts(parts.push(p), sep) == join_parts(parts, sep) + sep + p,
    decreases parts.len(),
{
    if parts.len() == 1 {
        assert(parts.push(p).len() == 2);
        assert(parts.push(p)[0] == parts[0]);
        assert(parts.push(p).drop_first() =~= seq![p]);
        assert(join_parts(seq![p], sep) == p);
        assert(join_parts(parts.push(p), sep) == parts[0] + sep + p);
        assert(join_parts(parts, sep) == parts[0]);
    } else {
        assert(parts.push(p).drop_first() =~= parts.drop_first().push(p));
        lemma_join_parts_snoc(parts.drop_first(), p, sep);
        assert(join_parts(parts.push(p), sep) =~= join_parts(parts, sep) + sep + p);
    }
}

/// Join pieces with a separator, executable form.
#[verifier::loop_isolation(false)]
pub fn join_parts_exec(parts: &Vec<Vec<char>>, sep: &Vec<char>) -> (r: Vec<char>)
    ensures
        r@ == join_parts(parts@.map_values(|p: Vec<char>| p@), sep@),
{
    let ghost viewed = parts@.map_values(|p: Vec<char>| p@);
    let mut r: Vec<char> = Vec::new();
    if parts.len() == 0 {
        return r;
    }
    text::push_all(&mut r, &parts[0]);
    let mut i: usize = 1;
    proof {
        assert(viewed.take(1) =~= seq![viewed[0]]);
        assert(r@ =~= join_parts(viewed.take(1), sep@));
    }
    while i < parts.len()
        invariant
            1 <= i <= parts@.len(),
            r@ == join_parts(viewed.take(i as int), sep@),
        decreases parts@.len() - i,
    {
        text::push_all(&mut r, sep);
        text::push_all(&mut r, &parts[i]);
        i = i + 1;
        proof {
            assert(viewed.take(i as int) =~= viewed.take(i as int - 1).push(viewed[i - 1]));
            lemma_join_parts_snoc(viewed.take(i as int - 1), viewed[i - 1], sep@);
        }
    }
    proof {
        assert(viewed.take(viewed.len() as int) =~= viewed);
    }
    r
}

/// Re-attach the old name's extension to a freshly built core.
pub fn attach_ext_exec(core: Vec<char>, name: &Vec<char>) -> (r: Vec<char>)
    ensures
        r@ == attach_ext(core@, name@),
{
    let (_stem, extopt) = pathname::split_stem_ext(name);
    match extopt {
        Some(e) => {
            let ghost core0 = core@;
            let mut r = core;
            r.push('.');
            text::push_all(&mut r, &e);
            proof {
                assert(r@ =~= core0 + seq!['.'] + ext_of(name@));
            }
            r
        },
        None => core,
    }
}

/// Place a block before or after the stem, executable form.
pub fn place_block_exec(
    block: &Vec<char>,
    sep: &Vec<char>,
    name: &Vec<char>,
    at_start: bool,
) -> (r: Vec<char>)
    ensures
        r@ == place_block(block@, sep@, name@, at_start),
{
    let (stem, _extopt) = pathname::split_stem_ext(name);
    let mut core: Vec<char> = Vec::new();
    if at_start {
        text::push_all(&mut core, block);
        text::push_all(&mut core, sep);
        text::push_all(&mut core, &stem);
    } else {
        text::push_all(&mut core, &stem);
        text::push_all(&mut core, sep);
        text::push_all(&mut core, block);
    }
    attach_ext_exec(core, name)
}

/// Apply one task to one target path.
pub fn apply_task(
    t: &Vec<char>,
    task: &Task,
    index: usize,
    civil: Option<CivilDateTime>,
) -> (r: Vec<char>)
    ensures
        r@ == task_step(t@, *task, index as nat, civil),
{
    match task {
        Task::CustomText { text, at_start, active } => {
            if !*active {
                return text::dup(t);
            }
            let (dir, name) = pathname::split_dir_name(t);
            let (stem, _e) = pathname::split_stem_ext(&name);
            let tv = text::chars_of(text.as_str());
            let core = if *at_start {
                text::concat2(&tv, &stem)
            } else {
                text::concat2(&stem, &tv)
            };
            let newname = attach_ext_exec(core, &name);
            text::concat2(&dir, &newname)
        },
        Task::FindAndReplace { find_text, replace_text, active } => {
            if !*active {
                return text::dup(t);
            }
            let (dir, name) = pathname::split_dir_name(t);
            let blank = pathname::sentinel_vec();
            if text::seq_eq(&name, &blank) {
                return text::dup(t);
            }
            let fv = text::chars_of(find_text.as_str());
            let rv = text::chars_of(replace_text.as_str());
            let replaced = text::replace_all_exec(&name, &fv, &rv);
            if replaced.len() == 0 {
                text::concat2(&dir, &blank)
            } else {
                text::concat2(&dir, &replaced)
            }
        },
        Task::ClearAll { active } => {
            if !*active {
                return text::dup(t);
            }
            let (dir, name) = pathname::split_dir_name(t);
            let (_stem, extopt) = pathname::split_stem_ext(&name);
            match extopt {
                Some(e) => {
                    let mut newname: Vec<char> = Vec::new();
                    newname.push('.');
                    text::push_all(&mut newname, &e);
                    proof {
                        assert(newname@ =~= seq!['.'] + ext_of(name@));
                    }
                    text::concat2(&dir, &newname)
                },
                None => {
                    let blank = pathname::sentinel_vec();
                    text::concat2(&dir, &blank)
                },
            }
        },
        Task::ChangeCase { case_choice, active } => {
            if !*active {
                return text::dup(t);
            }
            if *case_choice == 0 {
                let (dir, name) = pathname::split_dir_name(t);
                let s = text::string_of(&name);
                let low = bridge::to_lower(s.as_str());
                let lowv = text::chars_of(low.as_str());
                text::concat2(&dir, &lowv)
            } else if *case_choice == 1 {
                let (dir, name) = pathname::split_dir_name(t);
                let s = text::string_of(&name);
                let up = bridge::to_upper(s.as_str());
                let upv = text::chars_of(up.as_str());
                text::concat2(&dir, &upv)
            } else {
                text::dup(t)
            }
        },
        Task::NumSequence { start_num, num_padding, at_start, separator, active } => {
            if !*active {
                return text::dup(t);
            }
            let (dir, name) = pathname::split_dir_name(t);
            let seqval: u128 = index as u128 + *start_num as u128;
            let num = numeral::padded_dec_exec(seqval, *num_padding);
            let sepv = text::chars_of(separator.as_str());
            let newname = place_block_exec(&num, &sepv, &name, *at_start);
            text::concat2(&dir, &newname)
        },
        Task::Date { year, month, day, at_start, separator, active } => {
            if !*active {
                return text::dup(t);
            }
            match civil {
                None => text::dup(t),
                Some(c) => {
                    let (dir, name) = pathname::split_dir_name(t);
                    let sepv = text::chars_of(separator.as_str());
                    let mut parts: Vec<Vec<char>> = Vec::new();
                    if *year == 0 {
                        parts.push(numeral::signed_digits_exec(c.year as i64));
                    } else if *year == 1 {
                        let y = numeral::signed_digits_exec(c.year as i64);
                        let cut = if y.len() > 2 {
                            pathname::copy_range(&y, y.len() - 2, y.len())
                        } else {
                            y
                        };
                        proof {
                            assert(cut@ =~= last_two(signed_digits(c.year as int)));
                        }
                        parts.push(cut);
                    }
                    if *month {
                        parts.push(numeral::padded_dec_exec(c.month as u128, 2));
                    }
                    if *day {
                        parts.push(numeral::padded_dec_exec(c.day as u128, 2));
                    }
                    proof {
                        assert(parts@.map_values(|p: Vec<char>| p@) =~= date_parts(
                            *year,
                            *month,
                            *day,
                            c,
                        ));
                    }
                    let block = join_parts_exec(&parts, &sepv);
                    let newname = place_block_exec(&block, &sepv, &name, *at_start);
                    text::concat2(&dir, &newname)
                },
            }
        },
        Task::Time { at_start, separator, active } => {
            if !*active {
                return text::dup(t);
            }
            match civil {
                None => text::dup(t),
                Some(c) => {
                    let (dir, name) = pathname::split_dir_name(t);
                    let sepv = text::chars_of(separator.as_str());
                    let ph = numeral::padded_dec_exec(c.hour as u128, 2);
                    let pm = numeral::padded_dec_exec(c.minute as u128, 2);
                    let ps = numeral::padded_dec_exec(c.second as u128, 2);
                    let mut block = ph;
                    text::push_all(&mut block, &sepv);
                    text::push_all(&mut block, &pm);
                    text::push_all(&mut block, &sepv);
                    text::push_all(&mut block, &ps);
                    proof {
                        assert(block@ =~= time_block(c, sepv@));
                    }
                    let newname = place_block_exec(&block, &sepv, &name, *at_start);
                    text::concat2(&dir, &newname)
                },
            }
        },
    }
}

} // verus!
