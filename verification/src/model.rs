//! The data that the visualizer works on: points, named datasets, and the
//! ordered collection of datasets that a load produces.

use vstd::prelude::*;

verus! {

/// How many units of a coordinate make up the number one.
pub const UNITS_PER_ONE: i64 = 1_000_000;

/// One sample. Each coordinate counts millionths.
#[derive(Clone, Copy, Debug, PartialEq, Eq, Structural)]
pub struct Point {
    pub x: i64,
    pub y: i64,
}

/// A named, ordered run of points. The order is the order of the source and
/// matters to a line chart.
#[derive(Clone, Debug, PartialEq, Eq)]
pub struct Dataset {
    pub name: String,
    pub points: Vec<Point>,
}

/// What a dataset is, mathematically.
pub struct DatasetView {
    pub name: Seq<char>,
    pub points: Seq<Point>,
}

impl View for Dataset {
    type V = DatasetView;

    open spec fn view(&self) -> DatasetView {
        DatasetView { name: self.name@, points: self.points@ }
    }
}

/// One line of a table of points: the name of a dataset and one of its
/// points.
#[derive(Clone, Debug, PartialEq, Eq)]
pub struct Row {
    pub name: String,
    pub point: Point,
}

/// What a row is, mathematically.
pub struct RowView {
    pub name: Seq<char>,
    pub point: Point,
}

impl View for Row {
    type V = RowView;

    open spec fn view(&self) -> RowView {
        RowView { name: self.name@, point: self.point }
    }
}

/// The views of a run of datasets, in order.
pub open spec fn views_of(datasets: Seq<Dataset>) -> Seq<DatasetView> {
    Seq::new(datasets.len(), |i: int| datasets[i]@)
}

/// No two datasets carry the same name.
pub open spec fn distinct_names(sets: Seq<DatasetView>) -> bool {
    forall|i: int, j: int| 0 <= i < j < sets.len() ==> sets[i].name != sets[j].name
}

/// Some dataset of `sets` is called `name`.
pub open spec fn has_name(sets: Seq<DatasetView>, name: Seq<char>) -> bool {
    exists|i: int| 0 <= i < sets.len() && sets[i].name == name
}

/// The place of a dataset called `name`; meaningful where `has_name` holds,
/// and the only such place where the names are distinct.
pub open spec fn place_of(sets: Seq<DatasetView>, name: Seq<char>) -> int {
    choose|i: int| 0 <= i < sets.len() && sets[i].name == name
}

/// How many points some datasets hold, all together.
pub open spec fn total_points(sets: Seq<DatasetView>) -> nat
    decreases sets.len(),
{
    if sets.len() == 0 {
        0
    } else {
        total_points(sets.drop_last()) + sets.last().points.len()
    }
}

/// The grouping rule: points that arrive under a name join the dataset of
/// that name, or open a new dataset behind all others.
pub open spec fn absorb(sets: Seq<DatasetView>, name: Seq<char>, points: Seq<Point>) -> Seq<
    DatasetView,
> {
    if has_name(sets, name) {
        let i = place_of(sets, name);
        sets.update(i, DatasetView { name, points: sets[i].points + points })
    } else {
        sets.push(DatasetView { name, points })
    }
}

impl Dataset {
    /// A dataset without points.
    pub fn new(name: &str) -> (d: Dataset)
        ensures
            d@ == (DatasetView { name: name@, points: Seq::empty() }),
    {
        Dataset { name: name.to_owned(), points: Vec::new() }
    }

    pub fn len(&self) -> (n: usize)
        ensures
            n == self@.points.len(),
    {
        self.points.len()
    }

    pub fn is_empty(&self) -> (b: bool)
        ensures
            b == (self@.points.len() == 0),
    {
        self.points.len() == 0
    }

    /// Adds a point behind the others.
    pub fn push(&mut self, point: Point)
        ensures
            final(self)@ == (DatasetView {
                name: old(self)@.name,
                points: old(self)@.points.push(point),
            }),
    {
        self.points.push(point);
    }
}

/// The datasets of one load, in the order in which their names first
/// appeared, with at most one of them selected.
#[derive(Clone, Debug, PartialEq, Eq)]
pub struct DatasetCollection {
    datasets: Vec<Dataset>,
    selected: Option<usize>,
}

/// The view of a collection is its datasets, in order. The selection is
/// not part of it: `selection` tells it.
impl View for DatasetCollection {
    type V = Seq<DatasetView>;

    closed spec fn view(&self) -> Seq<DatasetView> {
        views_of(self.datasets@)
    }
}

impl Default for DatasetCollection {
    fn default() -> (c: DatasetCollection)
        ensures
            c.wf(),
            c@ == Seq::<DatasetView>::empty(),
            c.selection() is None,
    {
        DatasetCollection::new()
    }
}

impl DatasetCollection {
    /// The invariant of a collection: names are distinct, and a selection
    /// points at a dataset that is there.
    pub closed spec fn wf(&self) -> bool {
        &&& distinct_names(self@)
        &&& self.selected matches Some(i) ==> i < self.datasets@.len()
    }

    /// The selected place, if any.
    pub closed spec fn selection(&self) -> Option<int> {
        match self.selected {
            Some(i) => Some(i as int),
            None => None,
        }
    }

    /// What `wf` means in terms of the view and the selection.
    pub proof fn lemma_wf(&self)
        ensures
            self.wf() <==> (distinct_names(self@) && (self.selection() matches Some(i) ==> 0 <= i
                < self@.len())),
    {
    }

    pub fn new() -> (c: DatasetCollection)
        ensures
            c.wf(),
            c@ == Seq::<DatasetView>::empty(),
            c.selection() is None,
    {
        let c = DatasetCollection { datasets: Vec::new(), selected: None };
        assert(c@ =~= Seq::<DatasetView>::empty());
        c
    }

    pub fn len(&self) -> (n: usize)
        ensures
            n == self@.len(),
    {
        self.datasets.len()
    }

    pub fn is_empty(&self) -> (b: bool)
        ensures
            b == (self@.len() == 0),
    {
        self.datasets.len() == 0
    }

    /// The dataset at `index`, if there is one.
    pub fn get(&self, index: usize) -> (r: Option<&Dataset>)
        ensures
            match r {
                Some(d) => index < self@.len() && d@ == self@[index as int],
                None => index >= self@.len(),
            },
    {
        if index < self.datasets.len() {
            Some(&self.datasets[index])
        } else {
            None
        }
    }

    /// All datasets, in order.
    pub fn as_slice(&self) -> (s: &[Dataset])
        ensures
            views_of(s@) == self@,
    {
        self.datasets.as_slice()
    }

    /// How many points are held, in all datasets together.
    pub fn point_count(&self) -> (count: u128)
        ensures
            count == total_points(self@),
    {
        let mut count: u128 = 0;
        let mut i: usize = 0;
        assert(self@.take(0) =~= Seq::<DatasetView>::empty());
        while i < self.datasets.len()
            invariant
                i <= self.datasets@.len(),
                count == total_points(self@.take(i as int)),
                count <= i * 0x1_0000_0000_0000_0000,
            decreases self.datasets@.len() - i,
        {
            proof {
                assert(self@.take(i + 1).drop_last() =~= self@.take(i as int));
                assert(self@.take(i + 1).last() == self@[i as int]);
                assert((i + 1) * 0x1_0000_0000_0000_0000 == i * 0x1_0000_0000_0000_0000
                    + 0x1_0000_0000_0000_0000) by (nonlinear_arith);
                assert(i * 0x1_0000_0000_0000_0000 <= 0xffff_ffff_ffff_ffff
                    * 0x1_0000_0000_0000_0000) by (nonlinear_arith)
                    requires
                        i <= 0xffff_ffff_ffff_ffff,
                ;
            }
            count = count + self.datasets[i].points.len() as u128;
            i += 1;
        }
        assert(self@.take(self.datasets@.len() as int) =~= self@);
        count
    }

    /// Where the dataset called `name` stands.
    pub fn find(&self, name: &str) -> (r: Option<usize>)
        ensures
            match r {
                Some(i) => i < self@.len() && self@[i as int].name == name@ && forall|k: int|
                    0 <= k < i ==> self@[k].name != name@,
                None => !has_name(self@, name@),
            },
    {
        let wanted = name.to_owned();
        let mut i: usize = 0;
        while i < self.datasets.len()
            invariant
                i <= self.datasets@.len(),
                wanted@ == name@,
                forall|k: int| 0 <= k < i ==> self@[k].name != name@,
            decreases self.datasets@.len() - i,
        {
            if self.datasets[i].name == wanted {
                return Some(i);
            }
            i += 1;
        }
        None
    }

    /// Takes in points that arrived under `name`, by the grouping rule.
    pub fn extend(&mut self, name: &str, points: &[Point])
        requires
            old(self).wf(),
        ensures
            final(self).wf(),
            final(self).selection() == old(self).selection(),
            final(self)@ == absorb(old(self)@, name@, points@),
    {
        match self.find(name) {
            Some(i) => {
                let mut k: usize = 0;
                while k < points.len()
                    invariant
                        k <= points@.len(),
                        i < self.datasets@.len(),
                        self.selected == old(self).selected,
                        self.datasets@.len() == old(self).datasets@.len(),
                        forall|j: int|
                            0 <= j < self.datasets@.len() && j != i ==> self.datasets@[j]
                                == old(self).datasets@[j],
                        self.datasets@[i as int].name == old(self).datasets@[i as int].name,
                        self.datasets@[i as int].points@ == old(self).datasets@[i as int].points@
                            + points@.take(k as int),
                    decreases points@.len() - k,
                {
                    self.datasets[i].points.push(points[k]);
                    proof {
                        assert(points@.take(k + 1) =~= points@.take(k as int).push(
                            points@[k as int],
                        ));
                    }
                    k += 1;
                }
                proof {
                    assert(points@.take(points@.len() as int) =~= points@);
                    assert(has_name(old(self)@, name@));
                    assert(place_of(old(self)@, name@) == i);
                    assert(self@ =~= absorb(old(self)@, name@, points@));
                }
            },
            None => {
                let mut fresh = Dataset::new(name);
                let mut k: usize = 0;
                while k < points.len()
                    invariant
                        k <= points@.len(),
                        fresh@.name == name@,
                        fresh@.points == points@.take(k as int),
                    decreases points@.len() - k,
                {
                    fresh.points.push(points[k]);
                    proof {
                        assert(points@.take(k + 1) =~= points@.take(k as int).push(
                            points@[k as int],
                        ));
                    }
                    k += 1;
                }
                self.datasets.push(fresh);
                proof {
                    assert(points@.take(points@.len() as int) =~= points@);
                    assert(self@ =~= absorb(old(self)@, name@, points@));
                }
            },
        }
    }

    /// Takes in one point that arrived under `name`.
    pub fn append(&mut self, name: &str, point: Point)
        requires
            old(self).wf(),
        ensures
            final(self).wf(),
            final(self).selection() == old(self).selection(),
            final(self)@ == absorb(old(self)@, name@, seq![point]),
    {
        let mut one: Vec<Point> = Vec::new();
        one.push(point);
        assert(one@ =~= seq![point]);
        self.extend(name, one.as_slice());
    }

    /// Selects the dataset at `index`. Leaves the selection as it was, and
    /// says so, where there is no such dataset.
    pub fn select(&mut self, index: usize) -> (done: bool)
        requires
            old(self).wf(),
        ensures
            final(self).wf(),
            final(self)@ == old(self)@,
            done == (index < old(self)@.len()),
            final(self).selection() == if done {
                Some(index as int)
            } else {
                old(self).selection()
            },
    {
        if index < self.datasets.len() {
            self.selected = Some(index);
            true
        } else {
            false
        }
    }

    /// Drops the selection and keeps the datasets.
    pub fn clear_selection(&mut self)
        requires
            old(self).wf(),
        ensures
            final(self).wf(),
            final(self)@ == old(self)@,
            final(self).selection() is None,
    {
        self.selected = None;
    }

    /// The selected place, if any; it is always the place of a dataset.
    pub fn selected(&self) -> (r: Option<usize>)
        requires
            self.wf(),
        ensures
            match r {
                Some(i) => self.selection() == Some(i as int) && i < self@.len(),
                None => self.selection() is None,
            },
    {
        self.selected
    }

    /// The selected dataset, if any.
    pub fn selected_dataset(&self) -> (r: Option<&Dataset>)
        requires
            self.wf(),
        ensures
            match r {
                Some(d) => self.selection() matches Some(i) && d@ == self@[i],
                None => self.selection() is None,
            },
    {
        match self.selected {
            Some(i) => Some(&self.datasets[i]),
            None => None,
        }
    }

    /// Empties the collection.
    pub fn clear(&mut self)
        ensures
            final(self).wf(),
            final(self)@ == Seq::<DatasetView>::empty(),
            final(self).selection() is None,
    {
        self.datasets.clear();
        self.selected = None;
        assert(self@ =~= Seq::<DatasetView>::empty());
    }
}

/// The smallest box, with sides along the axes, around some points.
#[derive(Clone, Copy, Debug, PartialEq, Eq, Structural)]
pub struct Extents {
    pub min_x: i64,
    pub max_x: i64,
    pub min_y: i64,
    pub max_y: i64,
}

/// The size of the drawing area, in pixels.
#[derive(Clone, Copy, Debug, PartialEq, Eq, Structural)]
pub struct Size {
    pub width: u32,
    pub height: u32,
}

/// A place on the drawing area, in pixels from its top left corner; `y`
/// grows downwards. A point outside the extents it was projected against
/// lies outside the area, so the coordinates are wide.
#[derive(Clone, Copy, Debug, PartialEq, Eq, Structural)]
pub struct ScreenPoint {
    pub x: i128,
    pub y: i128,
}

/// The kinds of chart.
#[derive(Clone, Copy, Debug, PartialEq, Eq, Structural)]
pub enum ChartType {
    Scatter,
    Line,
    Bar,
}

/// One shape to draw.
#[derive(Clone, Copy, Debug, PartialEq, Eq, Structural)]
pub enum DrawPrimitive {
    /// A filled circle.
    Circle { center: ScreenPoint, radius: u32 },
    /// A straight line between two places.
    Segment { from: ScreenPoint, to: ScreenPoint },
    /// A filled rectangle with `left <= right` and `top <= bottom`.
    Rect { left: i128, top: i128, right: i128, bottom: i128 },
}

} // verus!
