use aitios::effect::DensityMap;
use aitios::sink::{extension, file_name, parent, Error, MtlSink, ObjSink};

#[test]
fn obj_sink_names_mtl_library_by_file_name() {
    let sink = ObjSink::new("out/scene.obj", Some("out/scene.mtl"));
    assert_eq!(sink.obj_path(), "out/scene.obj");
    assert_eq!(sink.mtl_lib(), Some("scene.mtl"));
}

#[test]
fn obj_sink_without_mtl() {
    let sink = ObjSink::new("scene.obj", None);
    assert_eq!(sink.obj_path(), "scene.obj");
    assert_eq!(sink.mtl_lib(), None);
}

#[test]
fn mtl_sink_keeps_its_path() {
    let sink = MtlSink::new("a/b/weathered.mtl");
    assert_eq!(sink.mtl_path(), "a/b/weathered.mtl");
}

#[test]
fn path_parts() {
    assert_eq!(file_name("a/b/c.obj"), "c.obj");
    assert_eq!(file_name("c.obj"), "c.obj");
    assert_eq!(parent("a/b/c.obj"), "a/b");
    assert_eq!(parent("c.obj"), "");
    assert_eq!(parent("/c.obj"), "/");
    assert_eq!(parent("/a/c.obj"), "/a");
    assert_eq!(extension("a/b/c.obj"), Some("obj"));
    assert_eq!(extension("a/b.d/c"), None);
    assert_eq!(extension(".hidden"), None);
    assert_eq!(extension("x.tar.gz"), Some("gz"));
}

#[test]
fn io_errors_convert() {
    let e = Error::from(std::io::Error::new(std::io::ErrorKind::Other, "disk full"));
    match e {
        Error::IO(inner) => assert_eq!(inner.kind(), std::io::ErrorKind::Other),
    }
}

#[test]
fn density_map_keeps_its_settings() {
    let d = DensityMap::new(256, 512, "maps");
    assert_eq!(d.texture_width, 256);
    assert_eq!(d.texture_height, 512);
    assert_eq!(d.output_directory, "maps");
}

#[test]
fn obj_sink_at_the_root() {
    let sink = ObjSink::new("/scene.obj", Some("/scene.mtl"));
    assert_eq!(sink.mtl_lib(), Some("scene.mtl"));
}
