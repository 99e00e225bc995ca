//! Reconciliation of an arrangement with a live session (the commands that
//! bring it there) and with the persisted configuration file.
use vstd::prelude::*;

use crate::geometry::{scale_text, transform_text, Pos, Scale, Transform};
use crate::model::{has_name, index_of, AppData, DisplayInfo};
use crate::text::{
    is_white_space, lemma_first_index, lemma_int_text, lemma_split_concat, lemma_split_pieces,
    lemma_split_whole, lemma_trim_free, lemma_trim_idempotent, lemma_trim_keeps, lemma_nat_text,
    is_digit, trim_end, trim_start,
    chars_of, first_index, int_text, push_chars, push_int, split_chars, split_on, string_of,
    trim, trim_chars, views, Strip,
};

verus! {

/// `s` when `b` holds, else nothing.
pub open spec fn opt(b: bool, s: Seq<char>) -> Seq<char> {
    if b {
        s
    } else {
        Seq::empty()
    }
}

/// `output ` that starts a display record.
pub open spec fn output_prefix() -> Seq<char> {
    seq!['o', 'u', 't', 'p', 'u', 't', ' ']
}

pub open spec fn scale_clause(s: Scale) -> Seq<char> {
    seq![' ', 's', 'c', 'a', 'l', 'e', ' '] + scale_text(s)
}

pub open spec fn pos_clause(p: Pos) -> Seq<char> {
    seq![' ', 'p', 'o', 's', ' '] + int_text(p.0 as int) + seq![' '] + int_text(p.1 as int)
}

pub open spec fn transform_clause(t: Transform) -> Seq<char> {
    seq![' ', 't', 'r', 'a', 'n', 's', 'f', 'o', 'r', 'm', ' '] + transform_text(t)
}

/// The configuration line of a display: its name, then each attribute that
/// differs from its default.
pub open spec fn config_line(d: DisplayInfo) -> Seq<char> {
    output_prefix() + d.name@ + opt(d.scale != Scale(100), scale_clause(d.scale)) + opt(
        d.position != Pos(0, 0),
        pos_clause(d.position),
    ) + opt(d.transform != Transform::Normal, transform_clause(d.transform))
}

/// Whether the managed attributes of two records differ.
pub open spec fn differs(a: DisplayInfo, b: DisplayInfo) -> bool {
    a.scale != b.scale || a.position != b.position || a.transform != b.transform
}

/// The command that brings `live` to `ours`: the display, then each managed
/// attribute that differs, with the value of `ours`.
pub open spec fn command_text(ours: DisplayInfo, live: DisplayInfo) -> Seq<char> {
    output_prefix() + live.name@ + opt(ours.scale != live.scale, scale_clause(ours.scale)) + opt(
        ours.position != live.position,
        pos_clause(ours.position),
    ) + opt(ours.transform != live.transform, transform_clause(ours.transform))
}

/// The commands for live displays `live`, in their order: one for each live
/// display that the desired set holds under its name with a managed attribute
/// changed.
pub open spec fn commands(desired: Seq<DisplayInfo>, live: Seq<DisplayInfo>) -> Seq<Seq<char>>
    decreases live.len(),
{
    if live.len() == 0 {
        Seq::empty()
    } else {
        let rest = commands(desired, live.drop_last());
        let l = live.last();
        if has_name(desired, l.name@) && differs(desired[index_of(desired, l.name@)], l) {
            rest.push(command_text(desired[index_of(desired, l.name@)], l))
        } else {
            rest
        }
    }
}

/// The first line of a written configuration file.
pub open spec fn header_line() -> Seq<char> {
    "# Automatically generated - do not edit!!"@
}

/// Whether a trimmed line is a display record: it starts with `output `.
pub open spec fn is_record(t: Seq<char>) -> bool {
    t.len() >= 7 && t.take(7) == output_prefix()
}

/// The name in a display record: what follows `output ` up to a space.
pub open spec fn record_name(t: Seq<char>) -> Seq<char> {
    let rest = t.skip(7);
    rest.take(first_index(rest, ' ') as int)
}

/// Whether a trimmed line is the record of a display that `desired` lacks.
pub open spec fn is_foreign(t: Seq<char>, desired: Seq<DisplayInfo>) -> bool {
    is_record(t) && !has_name(desired, record_name(t))
}

/// `r` without the records named `n`.
pub open spec fn drop_name(r: Seq<Seq<char>>, n: Seq<char>) -> Seq<Seq<char>>
    decreases r.len(),
{
    if r.len() == 0 {
        r
    } else {
        let rest = drop_name(r.drop_last(), n);
        if record_name(r.last()) == n {
            rest
        } else {
            rest.push(r.last())
        }
    }
}

/// The records of `ls`, trimmed, of displays that `desired` lacks: one per
/// name, the last line of that name, in the order of those last lines.
pub open spec fn kept_lines(ls: Seq<Seq<char>>, desired: Seq<DisplayInfo>) -> Seq<Seq<char>>
    decreases ls.len(),
{
    if ls.len() == 0 {
        Seq::empty()
    } else {
        let r = kept_lines(ls.drop_last(), desired);
        let t = trim(ls.last(), Strip::WhiteSpace);
        if is_foreign(t, desired) {
            drop_name(r, record_name(t)).push(t)
        } else {
            r
        }
    }
}

/// The records in a configuration text of displays that `desired` lacks.
pub open spec fn foreign_records(text: Seq<char>, desired: Seq<DisplayInfo>) -> Seq<Seq<char>> {
    kept_lines(split_on(text, '\n'), desired)
}

/// Each line followed by a line break.
pub open spec fn join_lines(ls: Seq<Seq<char>>) -> Seq<char>
    decreases ls.len(),
{
    if ls.len() == 0 {
        Seq::empty()
    } else {
        join_lines(ls.drop_last()) + ls.last().push('\n')
    }
}

/// The configuration file for `desired` that replaces `existing`: the header
/// and a blank line, the records of displays that `desired` lacks, then the
/// line of each display of `desired`.
pub open spec fn config_text(desired: Seq<DisplayInfo>, existing: Seq<char>) -> Seq<char> {
    header_line() + seq!['\n', '\n'] + join_lines(foreign_records(existing, desired)) + join_lines(
        desired.map_values(|d: DisplayInfo| config_line(d)),
    )
}

/// The views of a list of strings.
pub open spec fn string_views(v: Seq<String>) -> Seq<Seq<char>> {
    v.map_values(|s: String| s@)
}

fn push_scale_clause(out: &mut Vec<char>, s: Scale)
    ensures
        final(out)@ == old(out)@ + scale_clause(s),
{
    let w: Vec<char> = vec![' ', 's', 'c', 'a', 'l', 'e', ' '];
    push_chars(out, &w);
    s.push_text(out);
    assert(out@ =~= old(out)@ + scale_clause(s));
}

fn push_pos_clause(out: &mut Vec<char>, p: Pos)
    ensures
        final(out)@ == old(out)@ + pos_clause(p),
{
    let w: Vec<char> = vec![' ', 'p', 'o', 's', ' '];
    push_chars(out, &w);
    push_int(out, p.0 as i64);
    out.push(' ');
    push_int(out, p.1 as i64);
    assert(out@ =~= old(out)@ + pos_clause(p));
}

fn push_transform_clause(out: &mut Vec<char>, t: Transform)
    ensures
        final(out)@ == old(out)@ + transform_clause(t),
{
    let w: Vec<char> = vec![' ', 't', 'r', 'a', 'n', 's', 'f', 'o', 'r', 'm', ' '];
    push_chars(out, &w);
    t.push_text(out);
    assert(out@ =~= old(out)@ + transform_clause(t));
}

fn push_output_prefix(out: &mut Vec<char>, name: &String)
    ensures
        final(out)@ == old(out)@ + output_prefix() + name@,
{
    let w: Vec<char> = vec!['o', 'u', 't', 'p', 'u', 't', ' '];
    push_chars(out, &w);
    let n = chars_of(name.as_str());
    push_chars(out, &n);
    assert(out@ =~= old(out)@ + output_prefix() + name@);
}

impl DisplayInfo {
    /// The configuration line: `output <name>`, then ` scale <f>` unless
    /// the scale is one, ` pos <x> <y>` unless the position is `(0, 0)`, and
    /// ` transform <t>` unless there is no rotation.
    pub fn config(&self) -> (r: String)
        ensures
            r@ == config_line(*self),
    {
        let mut out: Vec<char> = Vec::new();
        self.push_config(&mut out);
        assert(out@ =~= config_line(*self));
        string_of(&out)
    }

    fn push_config(&self, out: &mut Vec<char>)
        ensures
            final(out)@ == old(out)@ + config_line(*self),
    {
        push_output_prefix(out, &self.name);
        if self.scale.0 != 100 {
            push_scale_clause(out, self.scale);
        }
        if self.position.0 != 0 || self.position.1 != 0 {
            push_pos_clause(out, self.position);
        }
        if self.transform != Transform::Normal {
            push_transform_clause(out, self.transform);
        }
        assert(out@ =~= old(out)@ + config_line(*self));
    }

    /// The command that brings `live` to this record, when a managed
    /// attribute differs.
    pub fn command(&self, live: &DisplayInfo) -> (r: Option<String>)
        ensures
            match r {
                Some(c) => differs(*self, *live) && c@ == command_text(*self, *live),
                None => !differs(*self, *live),
            },
    {
        if self.scale == live.scale && self.position == live.position && self.transform
            == live.transform {
            return None;
        }
        let mut out: Vec<char> = Vec::new();
        push_output_prefix(&mut out, &live.name);
        if self.scale != live.scale {
            push_scale_clause(&mut out, self.scale);
        }
        if self.position != live.position {
            push_pos_clause(&mut out, self.position);
        }
        if self.transform != live.transform {
            push_transform_clause(&mut out, self.transform);
        }
        assert(out@ =~= command_text(*self, *live));
        Some(string_of(&out))
    }
}

impl AppData {
    /// The commands that bring live displays `live` to this arrangement, in
    /// the order of `live`: one per display that this set holds and whose
    /// scale, position or rotation differs, naming only what differs.
    pub fn apply_displays(&self, live: &Vec<DisplayInfo>) -> (r: Vec<String>)
        requires
            self.wf(),
        ensures
            string_views(r@) == commands(self@, live@),
    {
        let mut r: Vec<String> = Vec::new();
        let mut i: usize = 0;
        assert(live@.take(0) =~= Seq::<DisplayInfo>::empty());
        assert(string_views(r@) =~= commands(self@, live@.take(0)));
        while i < live.len()
            invariant
                i <= live@.len(),
                self.wf(),
                string_views(r@) == commands(self@, live@.take(i as int)),
            decreases live@.len() - i,
        {
            let l = &live[i];
            assert(live@.take(i + 1).drop_last() =~= live@.take(i as int));
            assert(live@.take(i + 1).last() == live@[i as int]);
            match self.find(&l.name) {
                Some(j) => {
                    match self.display_geo[j].command(l) {
                        Some(c) => {
                            r.push(c);
                            assert(string_views(r@) =~= commands(self@, live@.take(i + 1)));
                        },
                        None => {},
                    }
                },
                None => {},
            }
            i += 1;
        }
        assert(live@.take(live@.len() as int) =~= live@);
        r
    }

    /// The configuration file that saving this arrangement writes in place of
    /// `existing`: a header line and a blank line, then the records of
    /// `existing` of displays that this set lacks, trimmed, one per name (the
    /// last line of that name), then the line of each display of this set.
    /// Lines of `existing` that are not records (comments, blank lines) are
    /// dropped.
    pub fn save_config(&self, existing: &str) -> (r: String)
        requires
            self.wf(),
        ensures
            r@ == config_text(self@, existing@),
    {
        let mut out: Vec<char> = chars_of("# Automatically generated - do not edit!!");
        out.push('\n');
        out.push('\n');
        let text = chars_of(existing);
        let lines = split_chars(&text, '\n');
        let ghost ls = views(lines@);
        let mut kept: Vec<Vec<char>> = Vec::new();
        let mut i: usize = 0;
        assert(ls.take(0) =~= Seq::<Seq<char>>::empty());
        assert(views(kept@) =~= kept_lines(ls.take(0), self@));
        while i < lines.len()
            invariant
                i <= lines@.len(),
                ls == views(lines@),
                self.wf(),
                views(kept@) == kept_lines(ls.take(i as int), self@),
                forall|m: int| 0 <= m < kept@.len() ==> is_record(#[trigger] kept@[m]@),
            decreases lines@.len() - i,
        {
            let t = trim_chars(&lines[i], Strip::WhiteSpace);
            assert(ls.take(i + 1).drop_last() =~= ls.take(i as int));
            assert(ls.take(i + 1).last() == lines@[i as int]@);
            match self.foreign(&t) {
                Some(name) => {
                    kept = drop_named(&kept, &name);
                    kept.push(t);
                    assert(views(kept@) =~= kept_lines(ls.take(i + 1), self@));
                },
                None => {},
            }
            i += 1;
        }
        assert(ls.take(lines@.len() as int) =~= ls);
        let ghost head = out@;
        let mut k: usize = 0;
        while k < kept.len()
            invariant
                k <= kept@.len(),
                out@ == head + join_lines(views(kept@).take(k as int)),
            decreases kept@.len() - k,
        {
            push_chars(&mut out, &kept[k]);
            out.push('\n');
            assert(views(kept@).take(k + 1).drop_last() =~= views(kept@).take(k as int));
            k += 1;
            assert(out@ =~= head + join_lines(views(kept@).take(k as int)));
        }
        assert(views(kept@).take(kept@.len() as int) =~= views(kept@));
        let ghost mid = out@;
        let ghost gl = self@.map_values(|d: DisplayInfo| config_line(d));
        let mut j: usize = 0;
        while j < self.display_geo.len()
            invariant
                j <= self@.len(),
                gl == self@.map_values(|d: DisplayInfo| config_line(d)),
                out@ == mid + join_lines(gl.take(j as int)),
            decreases self@.len() - j,
        {
            self.display_geo[j].push_config(&mut out);
            out.push('\n');
            assert(gl.take(j + 1).drop_last() =~= gl.take(j as int));
            j += 1;
            assert(out@ =~= mid + join_lines(gl.take(j as int)));
        }
        assert(gl.take(self@.len() as int) =~= gl);
        proof {
            reveal_strlit("# Automatically generated - do not edit!!");
        }
        assert(out@ =~= config_text(self@, existing@));
        string_of(&out)
    }

    /// The name in trimmed line `t` when it is the record of a display that
    /// this set lacks.
    fn foreign(&self, t: &Vec<char>) -> (r: Option<Vec<char>>)
        requires
            self.wf(),
        ensures
            match r {
                Some(n) => is_foreign(t@, self@) && n@ == record_name(t@),
                None => !is_foreign(t@, self@),
            },
    {
        match record_name_of(t) {
            Some(name) => {
                let s = string_of(&name);
                match self.find(&s) {
                    Some(_) => None,
                    None => Some(name),
                }
            },
            None => None,
        }
    }
}

/// The name in trimmed line `t` when it is a display record.
fn record_name_of(t: &Vec<char>) -> (r: Option<Vec<char>>)
    ensures
        match r {
            Some(n) => is_record(t@) && n@ == record_name(t@),
            None => !is_record(t@),
        },
{
    let n = t.len();
    if n < 7 {
        return None;
    }
    let prefix: Vec<char> = vec!['o', 'u', 't', 'p', 'u', 't', ' '];
    let head = crate::text::sub_chars(t, 0, 7);
    assert(head@ =~= t@.take(7));
    if !crate::text::chars_eq(&head, &prefix) {
        return None;
    }
    let mut e: usize = 7;
    while e < n && t[e] != ' '
        invariant
            7 <= e <= n == t@.len(),
            forall|m: int| 7 <= m < e ==> t@[m] != ' ',
        decreases n - e,
    {
        e += 1;
    }
    let ghost rest = t@.skip(7);
    proof {
        crate::text::lemma_first_index(rest, ' ', e - 7);
        if e < n {
            assert(rest.skip(e - 7)[0] == ' ');
        }
    }
    let name = crate::text::sub_chars(t, 7, e);
    assert(name@ =~= record_name(t@));
    Some(name)
}

/// `kept` without the records named `name`.
fn drop_named(kept: &Vec<Vec<char>>, name: &Vec<char>) -> (r: Vec<Vec<char>>)
    requires
        forall|i: int| 0 <= i < kept@.len() ==> is_record(#[trigger] kept@[i]@),
    ensures
        views(r@) == drop_name(views(kept@), name@),
        forall|i: int| 0 <= i < r@.len() ==> is_record(#[trigger] r@[i]@),
{
    let ghost ks = views(kept@);
    let mut r: Vec<Vec<char>> = Vec::new();
    let mut i: usize = 0;
    assert(ks.take(0) =~= Seq::<Seq<char>>::empty());
    assert(views(r@) =~= drop_name(ks.take(0), name@));
    while i < kept.len()
        invariant
            i <= kept@.len(),
            ks == views(kept@),
            forall|m: int| 0 <= m < kept@.len() ==> is_record(#[trigger] kept@[m]@),
            forall|m: int| 0 <= m < r@.len() ==> is_record(#[trigger] r@[m]@),
            views(r@) == drop_name(ks.take(i as int), name@),
        decreases kept@.len() - i,
    {
        assert(ks.take(i + 1).drop_last() =~= ks.take(i as int));
        assert(ks.take(i + 1).last() == kept@[i as int]@);
        let other = match record_name_of(&kept[i]) {
            Some(m) => m,
            None => {
                assert(false);
                Vec::new()
            },
        };
        if !crate::text::chars_eq(&other, name) {
            let c = crate::text::sub_chars(&kept[i], 0, kept[i].len());
            assert(c@ =~= kept@[i as int]@);
            r.push(c);
            assert(views(r@) =~= drop_name(ks.take(i + 1), name@));
        }
        i += 1;
    }
    assert(ks.take(kept@.len() as int) =~= ks);
    r
}

/// Whether the live displays agree with `desired` on every managed attribute
/// of every display that both hold.
pub open spec fn converged(desired: Seq<DisplayInfo>, live: Seq<DisplayInfo>) -> bool {
    forall|i: int|
        0 <= i < live.len() && has_name(desired, #[trigger] live[i].name@) ==> !differs(
            desired[index_of(desired, live[i].name@)],
            live[i],
        )
}

/// The live displays once the commands for `desired` have taken effect: each
/// display that `desired` holds takes its scale, position and rotation.
pub open spec fn applied(desired: Seq<DisplayInfo>, live: Seq<DisplayInfo>) -> Seq<DisplayInfo> {
    live.map_values(
        |l: DisplayInfo|
            if has_name(desired, l.name@) {
                DisplayInfo {
                    scale: desired[index_of(desired, l.name@)].scale,
                    position: desired[index_of(desired, l.name@)].position,
                    transform: desired[index_of(desired, l.name@)].transform,
                    ..l
                }
            } else {
                l
            },
    )
}

/// Live displays that agree with the desired set get no command.
pub proof fn lemma_converged_no_commands(desired: Seq<DisplayInfo>, live: Seq<DisplayInfo>)
    requires
        converged(desired, live),
    ensures
        commands(desired, live) == Seq::<Seq<char>>::empty(),
    decreases live.len(),
{
    if live.len() > 0 {
        let init = live.drop_last();
        assert forall|i: int| 0 <= i < init.len() && has_name(desired, #[trigger] init[i].name@) implies !differs(
            desired[index_of(desired, init[i].name@)],
            init[i],
        ) by {
            assert(init[i] == live[i]);
        }
        lemma_converged_no_commands(desired, init);
        assert(live.last() == live[live.len() - 1]);
    }
}

/// A set reconciled against itself, as a fresh query after an apply gives
/// it, needs no command.
pub proof fn lemma_reapply_no_commands(s: Seq<DisplayInfo>)
    requires
        crate::model::names_unique(s),
    ensures
        commands(s, s) == Seq::<Seq<char>>::empty(),
{
    assert forall|i: int| 0 <= i < s.len() && has_name(s, #[trigger] s[i].name@) implies !differs(
        s[index_of(s, s[i].name@)],
        s[i],
    ) by {
        let j = index_of(s, s[i].name@);
        assert(s[j].name@ == s[i].name@);
    }
    lemma_converged_no_commands(s, s);
}

/// Reconciliation is idempotent: once the commands for `desired` have taken
/// effect, reconciling again gives no command.
pub proof fn lemma_apply_idempotent(desired: Seq<DisplayInfo>, live: Seq<DisplayInfo>)
    ensures
        commands(desired, applied(desired, live)) == Seq::<Seq<char>>::empty(),
{
    let a = applied(desired, live);
    assert forall|i: int| 0 <= i < a.len() && has_name(desired, #[trigger] a[i].name@) implies !differs(
        desired[index_of(desired, a[i].name@)],
        a[i],
    ) by {
        assert(a[i].name == live[i].name);
    }
    lemma_converged_no_commands(desired, a);
}

/// No display name holds a white-space character.
pub open spec fn plain_names(s: Seq<DisplayInfo>) -> bool {
    forall|i: int, j: int|
        0 <= i < s.len() && 0 <= j < s[i].name@.len() ==> !is_white_space(#[trigger] s[i].name@[j])
}

/// Splitting joined lines gives the lines back.
pub proof fn lemma_split_join(ls: Seq<Seq<char>>, rest: Seq<char>)
    requires
        forall|i: int| 0 <= i < ls.len() ==> !(#[trigger] ls[i]).contains('\n'),
    ensures
        split_on(join_lines(ls) + rest, '\n') == ls + split_on(rest, '\n'),
    decreases ls.len(),
{
    if ls.len() == 0 {
        assert(join_lines(ls) + rest =~= rest);
        assert(ls + split_on(rest, '\n') =~= split_on(rest, '\n'));
    } else {
        let init = ls.drop_last();
        let last = ls.last();
        assert(!last.contains('\n')) by {
            assert(last == ls[ls.len() - 1]);
        }
        let r2 = last.push('\n') + rest;
        assert forall|i: int| 0 <= i < init.len() implies !(#[trigger] init[i]).contains('\n') by {
            assert(init[i] == ls[i]);
        }
        lemma_split_join(init, r2);
        assert(join_lines(ls) + rest =~= join_lines(init) + r2);
        lemma_split_concat(last, rest, '\n');
        lemma_split_whole(last, '\n');
        assert(init + (seq![last] + split_on(rest, '\n')) =~= ls + split_on(rest, '\n'));
    }
}

/// No two records of `r` share a name.
pub open spec fn names_distinct(r: Seq<Seq<char>>) -> bool {
    forall|i: int, j: int|
        0 <= i < r.len() && 0 <= j < r.len() && i != j ==> record_name(#[trigger] r[i])
            != record_name(#[trigger] r[j])
}

/// What holds of every record left by `drop_name` held of every record
/// before, and none is named `n`.
pub proof fn lemma_drop_name_keeps(r: Seq<Seq<char>>, n: Seq<char>, p: spec_fn(Seq<char>) -> bool)
    requires
        forall|i: int| 0 <= i < r.len() ==> p(#[trigger] r[i]),
    ensures
        forall|i: int|
            0 <= i < drop_name(r, n).len() ==> p(#[trigger] drop_name(r, n)[i]) && record_name(
                drop_name(r, n)[i],
            ) != n,
    decreases r.len(),
{
    if r.len() > 0 {
        let init = r.drop_last();
        assert forall|i: int| 0 <= i < init.len() implies p(#[trigger] init[i]) by {
            assert(init[i] == r[i]);
        }
        lemma_drop_name_keeps(init, n, p);
        assert(p(r[r.len() - 1]));
        let rest = drop_name(init, n);
        if record_name(r.last()) != n {
            assert forall|i: int| 0 <= i < rest.push(r.last()).len() implies p(
                #[trigger] rest.push(r.last())[i],
            ) && record_name(rest.push(r.last())[i]) != n by {
                if i < rest.len() {
                    assert(rest.push(r.last())[i] == rest[i]);
                }
            }
        }
    }
}

/// Dropping a name that no record has changes nothing.
pub proof fn lemma_drop_name_absent(r: Seq<Seq<char>>, n: Seq<char>)
    requires
        forall|i: int| 0 <= i < r.len() ==> record_name(#[trigger] r[i]) != n,
    ensures
        drop_name(r, n) == r,
    decreases r.len(),
{
    if r.len() > 0 {
        let init = r.drop_last();
        assert forall|i: int| 0 <= i < init.len() implies record_name(#[trigger] init[i]) != n by {
            assert(init[i] == r[i]);
        }
        lemma_drop_name_absent(init, n);
        assert(record_name(r[r.len() - 1]) != n);
        assert(init.push(r.last()) =~= r);
    }
}

/// Dropping a name keeps the names distinct.
pub proof fn lemma_drop_name_distinct(r: Seq<Seq<char>>, n: Seq<char>)
    requires
        names_distinct(r),
    ensures
        names_distinct(drop_name(r, n)),
    decreases r.len(),
{
    if r.len() > 0 {
        let init = r.drop_last();
        assert(names_distinct(init)) by {
            assert forall|i: int, j: int|
                0 <= i < init.len() && 0 <= j < init.len() && i != j implies record_name(
                #[trigger] init[i],
            ) != record_name(#[trigger] init[j]) by {
                assert(init[i] == r[i] && init[j] == r[j]);
            }
        }
        lemma_drop_name_distinct(init, n);
        let last = r.last();
        let rest = drop_name(init, n);
        if record_name(last) != n {
            assert forall|i: int| 0 <= i < init.len() implies record_name(#[trigger] init[i])
                != record_name(last) by {
                assert(init[i] == r[i]);
                assert(last == r[r.len() - 1]);
            }
            let ln = record_name(last);
            lemma_drop_name_keeps(init, n, |x: Seq<char>| record_name(x) != ln);
            let q = rest.push(last);
            assert forall|i: int, j: int|
                0 <= i < q.len() && 0 <= j < q.len() && i != j implies record_name(#[trigger] q[i])
                != record_name(#[trigger] q[j]) by {
                if i < rest.len() {
                    assert(q[i] == rest[i]);
                }
                if j < rest.len() {
                    assert(q[j] == rest[j]);
                }
            }
        }
    }
}

/// What kept records are like: foreign, trimmed already, free of line
/// breaks when the lines are, and one per name.
pub open spec fn kept_shape(r: Seq<Seq<char>>, d: Seq<DisplayInfo>) -> bool {
    &&& forall|i: int|
        0 <= i < r.len() ==> is_foreign(#[trigger] r[i], d) && trim(r[i], Strip::WhiteSpace)
            == r[i] && !r[i].contains('\n')
    &&& names_distinct(r)
}

pub proof fn lemma_kept_shape(ls: Seq<Seq<char>>, d: Seq<DisplayInfo>)
    requires
        forall|i: int| 0 <= i < ls.len() ==> !(#[trigger] ls[i]).contains('\n'),
    ensures
        kept_shape(kept_lines(ls, d), d),
    decreases ls.len(),
{
    if ls.len() > 0 {
        let init = ls.drop_last();
        assert forall|i: int| 0 <= i < init.len() implies !(#[trigger] init[i]).contains('\n') by {
            assert(init[i] == ls[i]);
        }
        lemma_kept_shape(init, d);
        let r = kept_lines(init, d);
        let t = trim(ls.last(), Strip::WhiteSpace);
        if is_foreign(t, d) {
            assert(!ls.last().contains('\n')) by {
                assert(ls.last() == ls[ls.len() - 1]);
            }
            lemma_trim_free(ls.last(), Strip::WhiteSpace, '\n');
            lemma_trim_idempotent(ls.last(), Strip::WhiteSpace);
            let n = record_name(t);
            lemma_drop_name_keeps(
                r,
                n,
                |x: Seq<char>| is_foreign(x, d) && trim(x, Strip::WhiteSpace) == x && !x.contains('\n'),
            );
            lemma_drop_name_distinct(r, n);
            let rest = drop_name(r, n);
            let q = rest.push(t);
            assert forall|i: int| 0 <= i < q.len() implies is_foreign(#[trigger] q[i], d) && trim(
                q[i],
                Strip::WhiteSpace,
            ) == q[i] && !q[i].contains('\n') by {
                if i < rest.len() {
                    assert(q[i] == rest[i]);
                }
            }
            assert forall|i: int, j: int|
                0 <= i < q.len() && 0 <= j < q.len() && i != j implies record_name(#[trigger] q[i])
                != record_name(#[trigger] q[j]) by {
                if i < rest.len() {
                    assert(q[i] == rest[i]);
                }
                if j < rest.len() {
                    assert(q[j] == rest[j]);
                }
            }
        }
    }
}

/// Records kept once are kept again, as they are.
pub proof fn lemma_kept_again(r: Seq<Seq<char>>, d: Seq<DisplayInfo>)
    requires
        kept_shape(r, d),
    ensures
        kept_lines(r, d) == r,
    decreases r.len(),
{
    if r.len() > 0 {
        let init = r.drop_last();
        let last = r.last();
        assert(last == r[r.len() - 1]);
        assert(kept_shape(init, d)) by {
            assert forall|i: int| 0 <= i < init.len() implies is_foreign(#[trigger] init[i], d)
                && trim(init[i], Strip::WhiteSpace) == init[i] && !init[i].contains('\n') by {
                assert(init[i] == r[i]);
            }
            assert forall|i: int, j: int|
                0 <= i < init.len() && 0 <= j < init.len() && i != j implies record_name(
                #[trigger] init[i],
            ) != record_name(#[trigger] init[j]) by {
                assert(init[i] == r[i] && init[j] == r[j]);
            }
        }
        lemma_kept_again(init, d);
        assert forall|i: int| 0 <= i < init.len() implies record_name(#[trigger] init[i])
            != record_name(last) by {
            assert(init[i] == r[i]);
        }
        lemma_drop_name_absent(init, record_name(last));
        assert(init.push(last) =~= r);
    }
}

/// Lines after which no foreign record follows keep what the lines before keep.
pub proof fn lemma_kept_tail_none(xs: Seq<Seq<char>>, ys: Seq<Seq<char>>, d: Seq<DisplayInfo>)
    requires
        forall|i: int| 0 <= i < ys.len() ==> !is_foreign(trim(#[trigger] ys[i], Strip::WhiteSpace), d),
    ensures
        kept_lines(xs + ys, d) == kept_lines(xs, d),
    decreases ys.len(),
{
    if ys.len() == 0 {
        assert(xs + ys =~= xs);
    } else {
        let y0 = ys.drop_last();
        assert forall|i: int| 0 <= i < y0.len() implies !is_foreign(trim(#[trigger] y0[i], Strip::WhiteSpace), d) by {
            assert(y0[i] == ys[i]);
        }
        lemma_kept_tail_none(xs, y0, d);
        assert((xs + ys).drop_last() =~= xs + y0);
        assert((xs + ys).last() == ys[ys.len() - 1]);
    }
}

/// Lines without foreign records before others change nothing that is kept.
pub proof fn lemma_kept_head_none(xs: Seq<Seq<char>>, ys: Seq<Seq<char>>, d: Seq<DisplayInfo>)
    requires
        forall|i: int| 0 <= i < xs.len() ==> !is_foreign(trim(#[trigger] xs[i], Strip::WhiteSpace), d),
    ensures
        kept_lines(xs + ys, d) == kept_lines(ys, d),
    decreases ys.len(),
{
    if ys.len() == 0 {
        assert(xs + ys =~= xs);
        lemma_kept_none(xs, d);
    } else {
        lemma_kept_head_none(xs, ys.drop_last(), d);
        assert((xs + ys).drop_last() =~= xs + ys.drop_last());
        assert((xs + ys).last() == ys.last());
    }
}

/// Lines none of which is a foreign record keep nothing.
pub proof fn lemma_kept_none(ls: Seq<Seq<char>>, d: Seq<DisplayInfo>)
    requires
        forall|i: int| 0 <= i < ls.len() ==> !is_foreign(trim(#[trigger] ls[i], Strip::WhiteSpace), d),
    ensures
        kept_lines(ls, d) == Seq::<Seq<char>>::empty(),
    decreases ls.len(),
{
    if ls.len() > 0 {
        let init = ls.drop_last();
        assert forall|i: int| 0 <= i < init.len() implies !is_foreign(trim(#[trigger] init[i], Strip::WhiteSpace), d) by {
            assert(init[i] == ls[i]);
        }
        lemma_kept_none(init, d);
        assert(ls.last() == ls[ls.len() - 1]);
    }
}

/// What the attribute clauses of a line are made of: neither white space at
/// their end nor a line break, and a space first.
proof fn lemma_clauses(d: DisplayInfo)
    ensures
        ({
            let c = opt(d.scale != Scale(100), scale_clause(d.scale)) + opt(
                d.position != Pos(0, 0),
                pos_clause(d.position),
            ) + opt(d.transform != Transform::Normal, transform_clause(d.transform));
            &&& c.len() > 0 ==> c[0] == ' ' && !is_white_space(c.last())
            &&& !c.contains('\n')
        }),
{
    let sc = opt(d.scale != Scale(100), scale_clause(d.scale));
    let pc = opt(d.position != Pos(0, 0), pos_clause(d.position));
    let tc = opt(d.transform != Transform::Normal, transform_clause(d.transform));
    let c = sc + pc + tc;
    let q = (d.scale.0 / 100) as nat;
    lemma_nat_text(q);
    lemma_int_text(d.position.0 as int);
    lemma_int_text(d.position.1 as int);
    let st = scale_text(d.scale);
    let x = int_text(d.position.0 as int);
    let y = int_text(d.position.1 as int);
    let tt = transform_text(d.transform);
    assert forall|j: int| 0 <= j < st.len() implies (is_digit(#[trigger] st[j]) || st[j] == '.') by {
        if j < nat_text_len(q) {
            assert(st[j] == crate::text::nat_text(q)[j]);
        }
    }
    assert(is_digit(st.last()));
    assert forall|j: int| 0 <= j < sc.len() implies #[trigger] sc[j] != '\n' by {
        if j >= 7 {
            assert(sc[j] == st[j - 7]);
        }
    }
    assert forall|j: int| 0 <= j < pc.len() implies #[trigger] pc[j] != '\n' by {
        if d.position != Pos(0, 0) {
            if 5 <= j < 5 + x.len() {
                assert(pc[j] == x[j - 5]);
            } else if j > 5 + x.len() {
                assert(pc[j] == y[j - 6 - x.len()]);
            }
        }
    }
    assert forall|j: int| 0 <= j < tc.len() implies #[trigger] tc[j] != '\n' by {
        if j >= 11 {
            assert(tc[j] == tt[j - 11]);
        }
    }
    assert(!c.contains('\n')) by {
        if c.contains('\n') {
            let j = choose|j: int| 0 <= j < c.len() && c[j] == '\n';
            if j < sc.len() {
                assert(c[j] == sc[j]);
            } else if j < sc.len() + pc.len() {
                assert(c[j] == pc[j - sc.len()]);
            } else {
                assert(c[j] == tc[j - sc.len() - pc.len()]);
            }
        }
    }
    if c.len() > 0 {
        if tc.len() > 0 {
            assert(c.last() == tt.last());
        } else if pc.len() > 0 {
            assert(c.last() == y.last());
        } else {
            assert(c.last() == st.last());
        }
        if sc.len() > 0 {
            assert(c[0] == sc[0]);
        } else if pc.len() > 0 {
            assert(c[0] == pc[0]);
        } else {
            assert(c[0] == tc[0]);
        }
    }
}

spec fn nat_text_len(n: nat) -> int {
    crate::text::nat_text(n).len() as int
}

/// The line of a display of the set is no foreign record, and holds no line break.
pub proof fn lemma_line_not_foreign(d: Seq<DisplayInfo>, i: int)
    requires
        0 <= i < d.len(),
        plain_names(d),
    ensures
        !is_foreign(trim(config_line(d[i]), Strip::WhiteSpace), d),
        !config_line(d[i]).contains('\n'),
{
    let x = d[i];
    let n = x.name@;
    let c = opt(x.scale != Scale(100), scale_clause(x.scale)) + opt(
        x.position != Pos(0, 0),
        pos_clause(x.position),
    ) + opt(x.transform != Transform::Normal, transform_clause(x.transform));
    lemma_clauses(x);
    let t = config_line(x);
    assert(t =~= output_prefix() + (n + c));
    assert(!t.contains('\n')) by {
        if t.contains('\n') {
            let j = choose|j: int| 0 <= j < t.len() && t[j] == '\n';
            if 7 <= j < 7 + n.len() {
                assert(t[j] == n[j - 7]);
                assert(!is_white_space(d[i].name@[j - 7]));
            } else if j >= 7 + n.len() {
                assert(t[j] == c[j - 7 - n.len()]);
            }
        }
    }
    if n.len() + c.len() > 0 {
        if c.len() > 0 {
            assert(t.last() == c.last());
        } else {
            assert(t.last() == n.last());
            assert(!is_white_space(d[i].name@[n.len() - 1]));
        }
        lemma_trim_keeps(t, Strip::WhiteSpace);
        assert(t.take(7) =~= output_prefix());
        let rest = t.skip(7);
        assert(rest =~= n + c);
        assert forall|j: int| 0 <= j < n.len() implies rest[j] != ' ' by {
            assert(rest[j] == n[j]);
            assert(!is_white_space(d[i].name@[j]));
        }
        lemma_first_index(rest, ' ', n.len() as int);
        if c.len() > 0 {
            assert(rest.skip(n.len() as int)[0] == ' ');
        } else {
            assert(rest.skip(n.len() as int).len() == 0);
        }
        assert(rest.take(n.len() as int) =~= n);
        assert(record_name(t) == n);
        assert(d[i].name@ == n);
    } else {
        assert(t =~= output_prefix());
        assert(trim_start(t, Strip::WhiteSpace) == t);
        assert(t.drop_last() =~= seq!['o', 'u', 't', 'p', 'u', 't']);
        assert(trim_end(t.drop_last(), Strip::WhiteSpace) == t.drop_last());
        assert(trim(t, Strip::WhiteSpace).len() == 6);
    }
}

/// A configuration file written for a set and read back holds the same
/// records of displays that the set lacks as the file it replaced, verbatim,
/// and one record per such display.
pub proof fn lemma_foreign_records_kept(desired: Seq<DisplayInfo>, existing: Seq<char>)
    requires
        plain_names(desired),
    ensures
        foreign_records(config_text(desired, existing), desired) == foreign_records(existing, desired),
        names_distinct(foreign_records(config_text(desired, existing), desired)),
{
    let h = header_line();
    let r = foreign_records(existing, desired);
    let g = desired.map_values(|x: DisplayInfo| config_line(x));
    let e = Seq::<char>::empty();
    reveal_strlit("# Automatically generated - do not edit!!");
    assert(!h.contains('\n')) by {
        if h.contains('\n') {
            let j = choose|j: int| 0 <= j < h.len() && h[j] == '\n';
            assert(h[j] != '\n');
        }
    }
    lemma_split_pieces(existing, '\n');
    lemma_kept_shape(split_on(existing, '\n'), desired);
    assert forall|i: int| 0 <= i < g.len() implies !(#[trigger] g[i]).contains('\n') by {
        lemma_line_not_foreign(desired, i);
    }
    let text = config_text(desired, existing);
    assert(text =~= h.push('\n') + (e.push('\n') + (join_lines(r) + (join_lines(g) + e))));
    lemma_split_concat(h, e.push('\n') + (join_lines(r) + (join_lines(g) + e)), '\n');
    lemma_split_whole(h, '\n');
    lemma_split_concat(e, join_lines(r) + (join_lines(g) + e), '\n');
    lemma_split_whole(e, '\n');
    lemma_split_join(r, join_lines(g) + e);
    lemma_split_join(g, e);
    let lines = split_on(text, '\n');
    assert(lines =~= (seq![h, e] + r) + (g + seq![e]));
    lemma_kept_again(r, desired);
    lemma_trim_keeps(h, Strip::WhiteSpace);
    assert(!is_record(h)) by {
        assert(h.take(7)[0] == '#');
    }
    assert(trim_start(e, Strip::WhiteSpace) == e);
    assert(trim_end(e, Strip::WhiteSpace) == e);
    let tail = g + seq![e];
    assert forall|i: int| 0 <= i < tail.len() implies !is_foreign(trim(#[trigger] tail[i], Strip::WhiteSpace), desired) by {
        if i < g.len() {
            assert(tail[i] == g[i]);
            lemma_line_not_foreign(desired, i);
        } else {
            assert(tail[i] == e);
        }
    }
    let head2 = seq![h, e];
    assert forall|i: int| 0 <= i < head2.len() implies !is_foreign(trim(#[trigger] head2[i], Strip::WhiteSpace), desired) by {
        if i == 0 {
            assert(head2[i] == h);
        } else {
            assert(head2[i] == e);
        }
    }
    lemma_kept_tail_none(seq![h, e] + r, tail, desired);
    lemma_kept_head_none(seq![h, e], r, desired);
    assert(lines == split_on(config_text(desired, existing), '\n'));
    assert(kept_lines(lines, desired) =~= r);
}

} // verus!
