use ktable::PhysicalObject;

struct Marker;

impl PhysicalObject for Marker {
    fn draw(&self) {}

    fn is_colliding(&self) {}
}

#[test]
fn scene_objects_implement_the_trait() {
    let m = Marker;
    let objects: Vec<&dyn PhysicalObject> = vec![&m];
    for o in objects {
        o.draw();
        o.is_colliding();
    }
}
