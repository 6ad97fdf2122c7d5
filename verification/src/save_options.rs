use vstd::prelude::*;

verus! {

/// How objects are packed into object streams.
#[derive(Debug, Clone, Copy, PartialEq, Eq, Structural)]
pub struct ObjectStreamConfig {
    /// The most objects one object stream holds.
    pub max_objects_per_stream: usize,
    /// The compression level asked for the object streams (0-9).
    pub compression_level: u32,
}

impl Default for ObjectStreamConfig {
    /// At most 100 objects per stream, compression level 6.
    fn default() -> (c: ObjectStreamConfig)
        ensures
            c.max_objects_per_stream == 100,
            c.compression_level == 6,
    {
        ObjectStreamConfig { max_objects_per_stream: 100, compression_level: 6 }
    }
}

/// Options for saving PDF documents.
#[derive(Debug, Clone)]
pub struct SaveOptions {
    /// Pack objects that are not streams into object streams. Their entries then need a
    /// cross-reference stream: a save that would keep a classic table fails with
    /// `Unsupported` before anything is written or changed. A zero capacity in
    /// `object_stream_config` fails with `InvalidInput` when an object stream would be
    /// built. An encrypted document is written without object streams.
    pub use_object_streams: bool,
    /// Write a cross-reference stream. `false` keeps the document's own kind of
    /// cross-reference data; it does not force a classic table.
    pub use_xref_streams: bool,
    /// Linearize the file (fast web view).
    pub linearize: bool,
    /// How objects are packed into object streams.
    pub object_stream_config: ObjectStreamConfig,
}

impl Default for SaveOptions {
    /// No object streams, no cross-reference stream, no linearization, and the default
    /// object stream configuration.
    fn default() -> (o: SaveOptions)
        ensures
            !o.use_object_streams,
            !o.use_xref_streams,
            !o.linearize,
            o.object_stream_config.max_objects_per_stream == 100,
            o.object_stream_config.compression_level == 6,
    {
        SaveOptions {
            use_object_streams: false,
            use_xref_streams: false,
            linearize: false,
            object_stream_config: ObjectStreamConfig::default(),
        }
    }
}

impl SaveOptions {
    /// A builder with every option off and no capacity or level set yet.
    pub fn builder() -> (b: SaveOptionsBuilder)
        ensures
            b@ == (false, false, false, 0usize, 0u32),
    {
        SaveOptionsBuilder::default()
    }
}

/// Builds `SaveOptions` step by step.
pub struct SaveOptionsBuilder {
    use_object_streams: bool,
    use_xref_streams: bool,
    linearize: bool,
    max_objects_per_stream: usize,
    compression_level: u32,
}

impl View for SaveOptionsBuilder {
    /// Object streams, cross-reference streams, linearization, the capacity of an object
    /// stream and the compression level, as set so far.
    type V = (bool, bool, bool, usize, u32);

    closed spec fn view(&self) -> (bool, bool, bool, usize, u32) {
        (
            self.use_object_streams,
            self.use_xref_streams,
            self.linearize,
            self.max_objects_per_stream,
            self.compression_level,
        )
    }
}

impl Default for SaveOptionsBuilder {
    /// Every option off, no capacity and no level set.
    fn default() -> (b: SaveOptionsBuilder)
        ensures
            b@ == (false, false, false, 0usize, 0u32),
    {
        SaveOptionsBuilder {
            use_object_streams: false,
            use_xref_streams: false,
            linearize: false,
            max_objects_per_stream: 0,
            compression_level: 0,
        }
    }
}

impl SaveOptionsBuilder {
    /// Enables or disables object streams.
    pub fn use_object_streams(self, value: bool) -> (b: Self)
        ensures
            b@ == (value, self@.1, self@.2, self@.3, self@.4),
    {
        SaveOptionsBuilder { use_object_streams: value, ..self }
    }

    /// Enables or disables cross-reference streams: `true` forces one, `false` keeps the
    /// document's own kind of cross-reference data.
    pub fn use_xref_streams(self, value: bool) -> (b: Self)
        ensures
            b@ == (self@.0, value, self@.2, self@.3, self@.4),
    {
        SaveOptionsBuilder { use_xref_streams: value, ..self }
    }

    /// Enables or disables linearization.
    pub fn linearize(self, value: bool) -> (b: Self)
        ensures
            b@ == (self@.0, self@.1, value, self@.3, self@.4),
    {
        SaveOptionsBuilder { linearize: value, ..self }
    }

    /// Sets the most objects one object stream holds. Streams may hold fewer: at most
    /// 65,536 members go into one, so that their indices fit 16 bits. Zero stands for the
    /// default capacity.
    pub fn max_objects_per_stream(self, value: usize) -> (b: Self)
        ensures
            b@ == (self@.0, self@.1, self@.2, value, self@.4),
    {
        SaveOptionsBuilder { max_objects_per_stream: value, ..self }
    }

    /// Sets the compression level (0-9).
    pub fn compression_level(self, value: u32) -> (b: Self)
        ensures
            b@ == (self@.0, self@.1, self@.2, self@.3, value),
    {
        SaveOptionsBuilder { compression_level: value, ..self }
    }

    /// The options set, with a capacity of zero replaced by the default of 100, so that
    /// built options always hold objects.
    pub fn build(self) -> (o: SaveOptions)
        ensures
            o.use_object_streams == self@.0,
            o.use_xref_streams == self@.1,
            o.linearize == self@.2,
            o.object_stream_config.max_objects_per_stream == if self@.3 == 0 {
                100
            } else {
                self@.3
            },
            o.object_stream_config.compression_level == self@.4,
            o.object_stream_config.max_objects_per_stream > 0,
    {
        SaveOptions {
            use_object_streams: self.use_object_streams,
            use_xref_streams: self.use_xref_streams,
            linearize: self.linearize,
            object_stream_config: ObjectStreamConfig {
                max_objects_per_stream: if self.max_objects_per_stream == 0 {
                    100
                } else {
                    self.max_objects_per_stream
                },
                compression_level: self.compression_level,
            },
        }
    }
}

} // verus!
