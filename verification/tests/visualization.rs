use fractal_flame::visualization::{Visualization, VisualizationParams};

#[test]
fn visualization_keeps_its_params() {
    let params = VisualizationParams {
        image_resolution: (720, 720),
        image_quality: 1,
    };
    let visualization = Visualization::new(params);
    assert_eq!(visualization.visualization_params.image_resolution, (720, 720));
    assert_eq!(visualization.visualization_params.image_quality, 1);
}

#[test]
fn visualization_keeps_a_non_square_resolution() {
    let visualization = Visualization::new(VisualizationParams {
        image_resolution: (1280, 720),
        image_quality: 3,
    });
    assert_eq!(visualization.visualization_params.image_resolution.0, 1280);
    assert_eq!(visualization.visualization_params.image_resolution.1, 720);
    assert_eq!(visualization.visualization_params.image_quality, 3);
}
