use vstd::prelude::*;

verus! {

/// Settings of the image that is shown to the user.
pub struct VisualizationParams {
    /// Width and height of the image, in pixels.
    pub image_resolution: (usize, usize),
    /// Quality factor of the rendered image.
    pub image_quality: u32,
}

/// What the user sees: the parameters of the displayed image.
pub struct Visualization {
    pub visualization_params: VisualizationParams,
}

impl Visualization {
    /// Builds a visualization that shows an image with the given parameters.
    pub fn new(visualization_params: VisualizationParams) -> (r: Self)
        ensures
            r.visualization_params == visualization_params,
    {
        Self { visualization_params }
    }
}

} // verus!
