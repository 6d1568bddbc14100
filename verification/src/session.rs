//! The state of the visualizer between two redraws: a label, the datasets
//! of the last load, and the kind of chart to draw them as.

use crate::error::IngestError;
use crate::geometry::{bounding_box, render, shapes};
use crate::ingest::{datasets_of, format_of, parse, parse_by_extension, parse_file, Format};
use crate::model::{
    views_of, ChartType, Dataset, DatasetCollection, DatasetView, DrawPrimitive, Size,
};
use crate::projection::has_points;
use crate::structured::structured_cause;
use crate::tabular::TabularLayout;
use vstd::prelude::*;
use vstd::slice::slice_subrange;

verus! {

/// The label that a fresh state carries.
pub const DEFAULT_LABEL: &'static str = "Hello World!";

/// The state of the visualizer: a label that the user may edit, what is
/// loaded, and how it is drawn.
#[derive(Clone, Debug, PartialEq, Eq)]
pub struct DataVisualizerApp {
    label: String,
    datasets: DatasetCollection,
    chart_type: ChartType,
}

/// The datasets that are drawn: the selected one alone, or all of them
/// where none is selected.
pub open spec fn visible(sets: Seq<DatasetView>, selection: Option<int>) -> Seq<DatasetView> {
    match selection {
        Some(i) => sets.subrange(i, i + 1),
        None => sets,
    }
}

/// The charts of the visible datasets, each against the bounding box of
/// all visible points; none at all where no point is visible.
pub open spec fn frame_of(
    chart_type: ChartType,
    sets: Seq<DatasetView>,
    selection: Option<int>,
    size: Size,
) -> Seq<Seq<DrawPrimitive>> {
    let shown = visible(sets, selection);
    if has_points(shown) {
        Seq::new(
            shown.len(),
            |d: int| shapes(chart_type, shown[d].points, bounding_box(shown), size),
        )
    } else {
        Seq::empty()
    }
}

impl Default for DataVisualizerApp {
    /// The state at the first start: the default label, nothing loaded, a
    /// scatter chart chosen.
    fn default() -> (v: DataVisualizerApp)
        ensures
            v.wf(),
            v.label_text() == DEFAULT_LABEL@,
            v.datasets() == Seq::<DatasetView>::empty(),
            v.selection() is None,
            v.chart() == ChartType::Scatter,
    {
        DataVisualizerApp::restore(DEFAULT_LABEL, ChartType::Scatter)
    }
}

impl DataVisualizerApp {
    /// The invariant of the state: that of its collection.
    pub closed spec fn wf(&self) -> bool {
        self.datasets.wf()
    }

    /// The loaded datasets.
    pub closed spec fn datasets(&self) -> Seq<DatasetView> {
        self.datasets@
    }

    /// The place of the selected dataset, if one is selected.
    pub closed spec fn selection(&self) -> Option<int> {
        self.datasets.selection()
    }

    /// The kind of chart that is drawn.
    pub closed spec fn chart(&self) -> ChartType {
        self.chart_type
    }

    /// The label.
    pub closed spec fn label_text(&self) -> Seq<char> {
        self.label@
    }

    /// A selection is the place of a loaded dataset.
    pub proof fn lemma_selection_in_range(&self)
        requires
            self.wf(),
        ensures
            self.selection() matches Some(i) ==> 0 <= i < self.datasets().len(),
    {
        self.datasets.lemma_wf();
    }

    /// The state at the start of a run: the state that was kept from the
    /// run before, if one was kept, else the state of the first start.
    pub fn new(stored: Option<DataVisualizerApp>) -> (v: DataVisualizerApp)
        requires
            stored matches Some(kept) ==> kept.wf(),
        ensures
            v.wf(),
            match stored {
                Some(kept) => v == kept,
                None => v.label_text() == DEFAULT_LABEL@ && v.datasets() == Seq::<
                    DatasetView,
                >::empty() && v.selection() is None && v.chart() == ChartType::Scatter,
            },
    {
        match stored {
            Some(kept) => kept,
            None => DataVisualizerApp::default(),
        }
    }

    /// A state with the given label and kind of chart, and nothing loaded:
    /// what is loaded is not kept from one run to the next.
    pub fn restore(label: &str, chart_type: ChartType) -> (v: DataVisualizerApp)
        ensures
            v.wf(),
            v.label_text() == label@,
            v.datasets() == Seq::<DatasetView>::empty(),
            v.selection() is None,
            v.chart() == chart_type,
    {
        DataVisualizerApp { label: label.to_owned(), datasets: DatasetCollection::new(), chart_type }
    }

    /// The label.
    pub fn label(&self) -> (label: &str)
        ensures
            label@ == self.label_text(),
    {
        self.label.as_str()
    }

    /// Writes a new label.
    pub fn set_label(&mut self, label: &str)
        ensures
            final(self).label_text() == label@,
            final(self).wf() == old(self).wf(),
            final(self).datasets() == old(self).datasets(),
            final(self).selection() == old(self).selection(),
            final(self).chart() == old(self).chart(),
    {
        self.label = label.to_owned();
    }

    /// Loads a source. Where it can be read, its datasets take the place of
    /// all that was loaded before, and nothing is selected; where it is
    /// refused, the state stays as it is.
    pub fn load(&mut self, source: &[u8], format: Format, layout: TabularLayout) -> (r: Result<
        (),
        IngestError,
    >)
        requires
            old(self).wf(),
        ensures
            final(self).wf(),
            final(self).chart() == old(self).chart(),
            final(self).label_text() == old(self).label_text(),
            match r {
                Ok(_) => datasets_of(source@, format, layout) == Some(final(self).datasets())
                    && final(self).selection() is None,
                Err(e) => e is StructuredFormatInvalid
                    && datasets_of(source@, format, layout) is None
                    && e.detail() == structured_cause(source@)
                    && final(self).datasets() == old(self).datasets()
                    && final(self).selection() == old(self).selection(),
            },
    {
        match parse(source, format, layout) {
            Ok(loaded) => {
                self.datasets = loaded;
                Ok(())
            },
            Err(e) => Err(e),
        }
    }

    /// Loads a source whose format is given by a file extension; as `load`
    /// does, but an extension that stands for no format is refused too.
    pub fn load_by_extension(&mut self, source: &[u8], extension: &str, layout: TabularLayout) -> (r:
        Result<(), IngestError>)
        requires
            old(self).wf(),
        ensures
            final(self).wf(),
            final(self).chart() == old(self).chart(),
            final(self).label_text() == old(self).label_text(),
            r is Err ==> final(self).datasets() == old(self).datasets() && final(self).selection()
                == old(self).selection(),
            r is Ok ==> final(self).selection() is None,
            match format_of(extension@) {
                Some(format) => match r {
                    Ok(_) => datasets_of(source@, format, layout) == Some(final(self).datasets()),
                    Err(e) => e is StructuredFormatInvalid && datasets_of(source@, format, layout)
                        is None && e.detail() == structured_cause(source@),
                },
                None => r matches Err(e) && e is UnsupportedFormat && e.detail() == extension@,
            },
    {
        match parse_by_extension(source, extension, layout) {
            Ok(loaded) => {
                self.datasets = loaded;
                Ok(())
            },
            Err(e) => Err(e),
        }
    }

    /// Loads a file from what reading it came to: its bytes, or the reason
    /// why it could not be read; as `load_by_extension` does, but a file
    /// that could not be read is refused too.
    pub fn load_file(
        &mut self,
        read: Result<Vec<u8>, String>,
        extension: &str,
        layout: TabularLayout,
    ) -> (r: Result<(), IngestError>)
        requires
            old(self).wf(),
        ensures
            final(self).wf(),
            final(self).chart() == old(self).chart(),
            final(self).label_text() == old(self).label_text(),
            r is Err ==> final(self).datasets() == old(self).datasets() && final(self).selection()
                == old(self).selection(),
            r is Ok ==> final(self).selection() is None,
            match read {
                Ok(source) => match format_of(extension@) {
                    Some(format) => match r {
                        Ok(_) => datasets_of(source@, format, layout) == Some(
                            final(self).datasets(),
                        ),
                        Err(e) => e is StructuredFormatInvalid && datasets_of(
                            source@,
                            format,
                            layout,
                        ) is None && e.detail() == structured_cause(source@),
                    },
                    None => r matches Err(e) && e is UnsupportedFormat && e.detail() == extension@,
                },
                Err(cause) => r matches Err(e) && e is FileUnreadable && e.detail() == cause@,
            },
    {
        match parse_file(read, extension, layout) {
            Ok(loaded) => {
                self.datasets = loaded;
                Ok(())
            },
            Err(e) => Err(e),
        }
    }

    /// Forgets all that is loaded.
    pub fn clear(&mut self)
        ensures
            final(self).wf(),
            final(self).datasets() == Seq::<DatasetView>::empty(),
            final(self).selection() is None,
            final(self).chart() == old(self).chart(),
            final(self).label_text() == old(self).label_text(),
    {
        self.datasets.clear();
    }

    /// Chooses the kind of chart.
    pub fn set_chart_type(&mut self, chart_type: ChartType)
        ensures
            final(self).wf() == old(self).wf(),
            final(self).datasets() == old(self).datasets(),
            final(self).selection() == old(self).selection(),
            final(self).label_text() == old(self).label_text(),
            final(self).chart() == chart_type,
    {
        self.chart_type = chart_type;
    }

    /// The kind of chart that is drawn.
    pub fn chart_type(&self) -> (chart_type: ChartType)
        ensures
            chart_type == self.chart(),
    {
        self.chart_type
    }

    /// Selects the dataset at `index`, to be drawn alone. Leaves the
    /// selection as it was, and says so, where there is no such dataset.
    pub fn select(&mut self, index: usize) -> (done: bool)
        requires
            old(self).wf(),
        ensures
            final(self).wf(),
            final(self).datasets() == old(self).datasets(),
            final(self).chart() == old(self).chart(),
            final(self).label_text() == old(self).label_text(),
            done == (index < old(self).datasets().len()),
            final(self).selection() == if done {
                Some(index as int)
            } else {
                old(self).selection()
            },
    {
        self.datasets.select(index)
    }

    /// Drops the selection: all datasets are drawn again.
    pub fn clear_selection(&mut self)
        requires
            old(self).wf(),
        ensures
            final(self).wf(),
            final(self).datasets() == old(self).datasets(),
            final(self).chart() == old(self).chart(),
            final(self).label_text() == old(self).label_text(),
            final(self).selection() is None,
    {
        self.datasets.clear_selection();
    }

    /// What is loaded.
    pub fn collection(&self) -> (c: &DatasetCollection)
        ensures
            c@ == self.datasets(),
            c.selection() == self.selection(),
            c.wf() == self.wf(),
    {
        &self.datasets
    }

    /// The datasets that are drawn.
    pub fn shown(&self) -> (s: &[Dataset])
        requires
            self.wf(),
        ensures
            views_of(s@) == visible(self.datasets(), self.selection()),
    {
        let all = self.datasets.as_slice();
        match self.datasets.selected() {
            Some(i) => {
                let count = all.len();
                assert(views_of(all@).len() == count);
                let one = slice_subrange(all, i, i + 1);
                assert(views_of(one@) =~= views_of(all@).subrange(i as int, i + 1));
                one
            },
            None => all,
        }
    }

    /// What to draw into an area of the given size: for each visible
    /// dataset its shapes, in order.
    pub fn frame(&self, size: Size) -> (out: Vec<Vec<DrawPrimitive>>)
        requires
            self.wf(),
        ensures
            out@.len() == frame_of(self.chart(), self.datasets(), self.selection(), size).len(),
            forall|d: int|
                0 <= d < out@.len() ==> (#[trigger] out@[d])@ == frame_of(
                    self.chart(),
                    self.datasets(),
                    self.selection(),
                    size,
                )[d],
    {
        render(self.chart_type, self.shown(), size)
    }
}

} // verus!
