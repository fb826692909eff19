//! Which representation of an image to load: the data-saver choice and the state
//! of the representation in use.
use vstd::prelude::*;

verus! {

/// A representation of an image.
#[derive(Clone, Copy, Debug, PartialEq, Eq, Structural)]
pub enum Representation {
    Standard,
    DataSaver,
    Original,
}

/// The image-quality settings and the representation being shown or loaded.
#[derive(Clone, Debug)]
pub struct ImageQuality {
    pub data_saver: bool,
    pub current: Representation,
    pub requested: Representation,
    /// The request loading a representation, if any.
    pub loading: Option<u64>,
    pub error: Option<String>,
}

impl ImageQuality {
    /// Data saver off, the standard representation, nothing loading.
    pub fn new() -> (q: ImageQuality)
        ensures
            !q.data_saver,
            q.current == Representation::Standard,
            q.requested == Representation::Standard,
            q.loading is None,
            q.error is None,
    {
        ImageQuality {
            data_saver: false,
            current: Representation::Standard,
            requested: Representation::Standard,
            loading: None,
            error: None,
        }
    }

    /// The representation that the settings ask for: the data-saver one when data
    /// saver is on, the standard one otherwise.
    pub fn policy(&self) -> (r: Representation)
        ensures
            r == if self.data_saver {
                Representation::DataSaver
            } else {
                Representation::Standard
            },
    {
        if self.data_saver {
            Representation::DataSaver
        } else {
            Representation::Standard
        }
    }

    /// Turns data saver on or off; reports whether the choice changed, in
    /// which case the caller cancels the prefetch, releases prepared images
    /// and loads the representation of [`ImageQuality::policy`] again.
    pub fn set_data_saver(&mut self, selected: bool) -> (changed: bool)
        ensures
            changed == (old(self).data_saver != selected),
            final(self).data_saver == selected,
            final(self).current == old(self).current,
            final(self).requested == old(self).requested,
            final(self).loading == old(self).loading,
            final(self).error == old(self).error,
    {
        if self.data_saver == selected {
            return false;
        }
        self.data_saver = selected;
        true
    }

    /// Starts loading `representation` under request `id`: a load in flight is
    /// replaced (its id is returned for the caller to cancel), and the error
    /// is cleared.
    pub fn request_representation(&mut self, id: u64, representation: Representation) -> (cancelled: Option<u64>)
        ensures
            cancelled == old(self).loading,
            final(self).loading == Some(id),
            final(self).requested == representation,
            final(self).error is None,
            final(self).data_saver == old(self).data_saver,
            final(self).current == old(self).current,
    {
        let cancelled = self.loading.take();
        self.loading = Some(id);
        self.requested = representation;
        self.error = None;
        cancelled
    }

}

} // verus!
