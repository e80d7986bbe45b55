// Rotating points about an axis with quaternions. The verified library keeps
// to integer permutation logic, so the floating-point rotation math lives
// outside it; these tests exercise a plain implementation of it.

struct Vector3D {
    x: f64,
    y: f64,
    z: f64,
}

impl Vector3D {
    fn new(x: f64, y: f64, z: f64) -> Self {
        Self { x, y, z }
    }

    fn magnitude(&self) -> f64 {
        (self.x * self.x + self.y * self.y + self.z * self.z).sqrt()
    }

    fn to_unit_vector(&self) -> Vector3D {
        let m = self.magnitude();
        Vector3D::new(self.x / m, self.y / m, self.z / m)
    }

    fn scale(&self, s: f64) -> Vector3D {
        Vector3D::new(self.x * s, self.y * s, self.z * s)
    }

    fn approx_equals(&self, other: &Vector3D) -> bool {
        (self.x - other.x).abs() < 1e-6 && (self.y - other.y).abs() < 1e-6
            && (self.z - other.z).abs() < 1e-6
    }
}

struct Quaternion {
    w: f64,
    x: f64,
    y: f64,
    z: f64,
}

impl Quaternion {
    fn new(w: f64, x: f64, y: f64, z: f64) -> Self {
        Self { w, x, y, z }
    }

    fn from_vector(v: &Vector3D) -> Self {
        Self::new(0.0, v.x, v.y, v.z)
    }

    fn conjugate(&self) -> Quaternion {
        Quaternion::new(self.w, -self.x, -self.y, -self.z)
    }

    fn multiply(&self, o: &Quaternion) -> Quaternion {
        Quaternion::new(
            self.w * o.w - self.x * o.x - self.y * o.y - self.z * o.z,
            self.w * o.x + self.x * o.w + self.y * o.z - self.z * o.y,
            self.w * o.y - self.x * o.z + self.y * o.w + self.z * o.x,
            self.w * o.z + self.x * o.y - self.y * o.x + self.z * o.w,
        )
    }

    fn to_vector(&self) -> Vector3D {
        Vector3D::new(self.x, self.y, self.z)
    }
}

struct Rotation3D {
    q: Quaternion,
}

impl Rotation3D {
    fn new(axis: &Vector3D, rotation_amount: f64) -> Self {
        let imaginary = axis.to_unit_vector().scale((rotation_amount / 2.0).sin());
        let q = Quaternion::new(
            (rotation_amount / 2.0).cos(),
            imaginary.x,
            imaginary.y,
            imaginary.z,
        );
        Self { q }
    }

    fn rotate_point_about_origin(&self, point: &Vector3D) -> Vector3D {
        self.q.multiply(&Quaternion::from_vector(point)).multiply(&self.q.conjugate()).to_vector()
    }
}

#[test]
fn test_basic_rotations() {
    let rotate_about_x_axis_90 = Rotation3D::new(
        // shouldn't matter what the values are here, this gets converted into a unit vector
        &Vector3D::new(1.1, 0.0, 0.0),
        std::f64::consts::FRAC_PI_2,
    );

    assert!(rotate_about_x_axis_90
        .rotate_point_about_origin(&Vector3D::new(1.5, 0.0, 0.0))
        .approx_equals(&Vector3D::new(1.5, 0.0, 0.0)));
    assert!(rotate_about_x_axis_90
        .rotate_point_about_origin(&Vector3D::new(0.0, 1.5, 0.0))
        .approx_equals(&Vector3D::new(0.0, 0.0, 1.5)));
    assert!(rotate_about_x_axis_90
        .rotate_point_about_origin(&Vector3D::new(0.0, 0.0, 1.5))
        .approx_equals(&Vector3D::new(0.0, -1.5, 0.0)));

    let rotate_about_x_axis_0 = Rotation3D::new(
        // shouldn't matter what the values are here, this gets converted into a unit vector
        &Vector3D::new(1.1, 0.0, 0.0),
        0.0,
    );
    assert!(rotate_about_x_axis_0
        .rotate_point_about_origin(&Vector3D::new(3.4, 2.5, 1.7))
        .approx_equals(&Vector3D::new(3.4, 2.5, 1.7)));
}

#[test]
fn rotation_preserves_magnitude() {
    let rotation = Rotation3D::new(&Vector3D::new(1.0, 2.0, 3.0), 1.234);
    let p = Vector3D::new(0.5, -2.0, 4.0);
    let rotated = rotation.rotate_point_about_origin(&p);
    assert!((rotated.magnitude() - p.magnitude()).abs() < 1e-9);
}
