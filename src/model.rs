//! Display records and the display set that holds a whole arrangement.
use vstd::prelude::*;

use crate::geometry::{transform_of, Pos, Scale, Transform};

verus! {

/// One physical monitor: identity, geometry and selection flag.
#[derive(Debug)]
pub struct DisplayInfo {
    pub name: String,
    pub make: String,
    pub model: String,
    pub serial: String,
    pub active: bool,
    pub position: Pos,
    pub size: (u32, u32),
    pub scale: Scale,
    pub transform: Transform,
    pub id: Option<i64>,
    pub focused: bool,
}

/// A monitor as a session reports it, in plain values.
#[derive(Debug)]
pub struct OutputState {
    pub name: String,
    pub make: String,
    pub model: String,
    pub serial: String,
    pub active: bool,
    /// `x`, `y`, `width` and `height`.
    pub rect: (i32, i32, i32, i32),
    /// The scale in use, when the session reports one.
    pub scale: Option<Scale>,
    /// The session's text for the rotation in use, when it reports one.
    pub transform: Option<String>,
    pub id: Option<i64>,
}

/// A side length as a session reports it, negative ones taken as zero.
pub open spec fn side(v: i32) -> u32 {
    if v < 0 {
        0
    } else {
        v as u32
    }
}

/// The display record for a monitor that a session reports: no scale means
/// a factor of one, and the record is not focused.
pub open spec fn display_of(o: OutputState) -> DisplayInfo {
    DisplayInfo {
        name: o.name,
        make: o.make,
        model: o.model,
        serial: o.serial,
        active: o.active,
        position: Pos(o.rect.0, o.rect.1),
        size: (side(o.rect.2), side(o.rect.3)),
        scale: match o.scale {
            Some(s) => s,
            None => Scale(100),
        },
        transform: match o.transform {
            Some(t) => transform_of(t@),
            None => Transform::Normal,
        },
        id: o.id,
        focused: false,
    }
}

impl OutputState {
    /// A copy of this record.
    pub fn cloned(&self) -> (r: OutputState)
        ensures
            r == *self,
    {
        let transform = match &self.transform {
            Some(t) => Some(t.clone()),
            None => None,
        };
        OutputState {
            name: self.name.clone(),
            make: self.make.clone(),
            model: self.model.clone(),
            serial: self.serial.clone(),
            active: self.active,
            rect: self.rect,
            scale: self.scale,
            transform,
            id: self.id,
        }
    }
}

impl DisplayInfo {
    /// A copy of this record.
    pub fn cloned(&self) -> (r: DisplayInfo)
        ensures
            r == *self,
    {
        DisplayInfo {
            name: self.name.clone(),
            make: self.make.clone(),
            model: self.model.clone(),
            serial: self.serial.clone(),
            active: self.active,
            position: self.position,
            size: self.size,
            scale: self.scale,
            transform: self.transform,
            id: self.id,
            focused: self.focused,
        }
    }

    /// The record for a monitor that a session reports.
    pub fn from_output(o: OutputState) -> (r: DisplayInfo)
        ensures
            r == display_of(o),
    {
        let transform = match &o.transform {
            Some(t) => Transform::from_text(t.as_str()),
            None => Transform::Normal,
        };
        let scale = match o.scale {
            Some(s) => s,
            None => Scale(100),
        };
        let w: u32 = if o.rect.2 < 0 {
            0
        } else {
            o.rect.2 as u32
        };
        let h: u32 = if o.rect.3 < 0 {
            0
        } else {
            o.rect.3 as u32
        };
        DisplayInfo {
            name: o.name,
            make: o.make,
            model: o.model,
            serial: o.serial,
            active: o.active,
            position: Pos(o.rect.0, o.rect.1),
            size: (w, h),
            scale,
            transform,
            id: o.id,
            focused: false,
        }
    }
}

/// No two records of `s` share a name.
pub open spec fn names_unique(s: Seq<DisplayInfo>) -> bool {
    forall|i: int, j: int|
        0 <= i < s.len() && 0 <= j < s.len() && i != j ==> #[trigger] s[i].name@ != #[trigger] s[j].name@
}

/// Some record of `s` has the name `n`.
pub open spec fn has_name(s: Seq<DisplayInfo>, n: Seq<char>) -> bool {
    exists|i: int| 0 <= i < s.len() && #[trigger] s[i].name@ == n
}

/// The index of the record named `n` in a set that has one.
pub open spec fn index_of(s: Seq<DisplayInfo>, n: Seq<char>) -> int {
    choose|i: int| 0 <= i < s.len() && #[trigger] s[i].name@ == n
}

/// `s` with `d` put in: in place of the record of the same name, or at the end.
pub open spec fn insert_display(s: Seq<DisplayInfo>, d: DisplayInfo) -> Seq<DisplayInfo> {
    if has_name(s, d.name@) {
        s.update(index_of(s, d.name@), d)
    } else {
        s.push(d)
    }
}

/// The display set of a list of records, each put in after the ones before:
/// of records that share a name, the last one stays, at the place of the first.
pub open spec fn set_of(s: Seq<DisplayInfo>) -> Seq<DisplayInfo>
    decreases s.len(),
{
    if s.len() == 0 {
        Seq::empty()
    } else {
        insert_display(set_of(s.drop_last()), s.last())
    }
}

/// The whole arrangement: display records, keyed by their unique names.
#[derive(Debug)]
pub struct AppData {
    pub display_geo: Vec<DisplayInfo>,
}

impl View for AppData {
    type V = Seq<DisplayInfo>;

    open spec fn view(&self) -> Seq<DisplayInfo> {
        self.display_geo@
    }
}

impl AppData {
    /// The invariant: names are unique.
    pub open spec fn wf(&self) -> bool {
        names_unique(self@)
    }

    /// An empty set.
    pub fn new() -> (r: AppData)
        ensures
            r.wf(),
            r@ == Seq::<DisplayInfo>::empty(),
    {
        AppData { display_geo: Vec::new() }
    }

    /// A copy of this set.
    pub fn cloned(&self) -> (r: AppData)
        ensures
            r@ == self@,
    {
        let mut v: Vec<DisplayInfo> = Vec::new();
        let mut i: usize = 0;
        while i < self.display_geo.len()
            invariant
                i <= self@.len(),
                v@ == self@.take(i as int),
            decreases self@.len() - i,
        {
            v.push(self.display_geo[i].cloned());
            i += 1;
            assert(v@ =~= self@.take(i as int));
        }
        assert(self@.take(self@.len() as int) =~= self@);
        AppData { display_geo: v }
    }

    /// The records, in the set's order.
    pub fn displays(&self) -> (r: &Vec<DisplayInfo>)
        ensures
            r@ == self@,
    {
        &self.display_geo
    }

    /// The number of records.
    pub fn len(&self) -> (r: usize)
        ensures
            r == self@.len(),
    {
        self.display_geo.len()
    }

    /// The index of the record named `name`.
    pub fn find(&self, name: &String) -> (r: Option<usize>)
        requires
            self.wf(),
        ensures
            match r {
                Some(i) => i < self@.len() && self@[i as int].name@ == name@ && i == index_of(
                    self@,
                    name@,
                ),
                None => !has_name(self@, name@),
            },
    {
        let mut i: usize = 0;
        while i < self.display_geo.len()
            invariant
                i <= self@.len(),
                self.wf(),
                forall|j: int| 0 <= j < i ==> self@[j].name@ != name@,
            decreases self@.len() - i,
        {
            if self.display_geo[i].name == *name {
                assert(self@[i as int].name@ == name@);
                proof {
                    let j = index_of(self@, name@);
                    assert(self@[j].name@ == name@);
                }
                return Some(i);
            }
            i += 1;
        }
        None
    }

    /// Puts `d` in: in place of the record of the same name, or at the end.
    pub fn insert(&mut self, d: DisplayInfo)
        requires
            old(self).wf(),
        ensures
            final(self).wf(),
            final(self)@ == insert_display(old(self)@, d),
    {
        match self.find(&d.name) {
            Some(i) => {
                self.display_geo.set(i, d);
                assert forall|a: int, b: int|
                    0 <= a < self@.len() && 0 <= b < self@.len() && a != b implies
                    #[trigger] self@[a].name@ != #[trigger] self@[b].name@ by {
                    assert(old(self)@[i as int].name@ == self@[i as int].name@);
                    if a != i && b != i {
                        assert(old(self)@[a] == self@[a]);
                        assert(old(self)@[b] == self@[b]);
                    }
                }
            },
            None => {
                self.display_geo.push(d);
                assert forall|a: int, b: int|
                    0 <= a < self@.len() && 0 <= b < self@.len() && a != b implies
                    #[trigger] self@[a].name@ != #[trigger] self@[b].name@ by {
                    if a < old(self)@.len() && b < old(self)@.len() {
                        assert(old(self)@[a] == self@[a]);
                        assert(old(self)@[b] == self@[b]);
                    } else if a < old(self)@.len() {
                        assert(old(self)@[a] == self@[a]);
                    } else {
                        assert(old(self)@[b] == self@[b]);
                    }
                }
            },
        }
    }

    /// The set of the given records; of records that share a name the last
    /// one stays.
    pub fn from_displays(v: Vec<DisplayInfo>) -> (r: AppData)
        ensures
            r.wf(),
            r@ == set_of(v@),
    {
        let mut r = AppData::new();
        let mut i: usize = 0;
        assert(v@.take(0) =~= Seq::<DisplayInfo>::empty());
        while i < v.len()
            invariant
                i <= v@.len(),
                r.wf(),
                r@ == set_of(v@.take(i as int)),
            decreases v@.len() - i,
        {
            let d = v[i].cloned();
            r.insert(d);
            assert(v@.take(i + 1).drop_last() =~= v@.take(i as int));
            i += 1;
        }
        assert(v@.take(v@.len() as int) =~= v@);
        r
    }

    /// The set of the monitors that a session reports.
    pub fn from_outputs(outputs: Vec<OutputState>) -> (r: AppData)
        ensures
            r.wf(),
            r@ == set_of(outputs@.map_values(|o: OutputState| display_of(o))),
    {
        let mut v: Vec<DisplayInfo> = Vec::new();
        let mut i: usize = 0;
        while i < outputs.len()
            invariant
                i <= outputs@.len(),
                v@ == outputs@.take(i as int).map_values(|o: OutputState| display_of(o)),
            decreases outputs@.len() - i,
        {
            let o = outputs[i].cloned();
            v.push(DisplayInfo::from_output(o));
            i += 1;
            assert(v@ =~= outputs@.take(i as int).map_values(|o: OutputState| display_of(o)));
        }
        assert(outputs@.take(outputs@.len() as int) =~= outputs@);
        AppData::from_displays(v)
    }
}

/// The first record from index `k` on that is focused.
pub open spec fn first_focused(s: Seq<DisplayInfo>, k: int) -> Option<int>
    decreases s.len() - k,
{
    if k < 0 || k >= s.len() {
        None
    } else if s[k].focused {
        Some(k)
    } else {
        first_focused(s, k + 1)
    }
}

/// Access to the display selected for editing: the first focused record.
#[derive(Clone, Copy, Debug, Default)]
pub struct FocusedDisplay;

impl FocusedDisplay {
    fn index(data: &AppData) -> (r: Option<usize>)
        ensures
            match r {
                Some(i) => first_focused(data@, 0) == Some(i as int) && i < data@.len(),
                None => first_focused(data@, 0) is None,
            },
    {
        let mut i: usize = 0;
        while i < data.display_geo.len()
            invariant
                i <= data@.len(),
                first_focused(data@, 0) == first_focused(data@, i as int),
            decreases data@.len() - i,
        {
            if data.display_geo[i].focused {
                return Some(i);
            }
            i += 1;
        }
        None
    }

    /// A copy of the focused display, if any.
    pub fn with(&self, data: &AppData) -> (r: Option<DisplayInfo>)
        ensures
            match first_focused(data@, 0) {
                Some(i) => r == Some(data@[i]),
                None => r is None,
            },
    {
        match FocusedDisplay::index(data) {
            Some(i) => Some(data.display_geo[i].cloned()),
            None => None,
        }
    }

    /// Replaces the focused display, if any, by `edited` under its own name;
    /// returns whether there was one.
    pub fn with_mut(&self, data: &mut AppData, edited: &DisplayInfo) -> (r: bool)
        requires
            old(data).wf(),
        ensures
            final(data).wf(),
            match first_focused(old(data)@, 0) {
                Some(i) => r && final(data)@ == old(data)@.update(
                    i,
                    DisplayInfo { name: old(data)@[i].name, ..*edited },
                ),
                None => !r && final(data)@ == old(data)@,
            },
    {
        match FocusedDisplay::index(data) {
            Some(i) => {
                let mut d = edited.cloned();
                d.name = data.display_geo[i].name.clone();
                let ghost s = data@;
                data.display_geo.set(i, d);
                assert forall|a: int, c: int|
                    0 <= a < data@.len() && 0 <= c < data@.len() && a != c implies
                    #[trigger] data@[a].name@ != #[trigger] data@[c].name@ by {
                    assert(data@[a].name == s[a].name);
                    assert(data@[c].name == s[c].name);
                }
                true
            },
            None => false,
        }
    }
}

/// A Bluetooth device as the pairing panel lists it.
#[derive(Clone, Debug, Default)]
pub struct Device {
    pub id: String,
    pub addr: String,
    pub name: String,
    pub rssi: Option<i16>,
}

} // verus!
