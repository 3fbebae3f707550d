//! Object classes reported by the perception stack.
use vstd::prelude::*;

verus! {

/// Classes of detected objects.
#[derive(Debug, Clone, Copy, PartialEq, Eq, Structural)]
pub enum ObjectClass {
    Person,
    Bicycle,
    Car,
    Motorcycle,
    Bus,
    Truck,
    Train,
    Animal,
    TrafficLight,
    FireHydrant,
    StopSign,
    ParkingMeter,
    Bench,
    Tree,
    Building,
    Fence,
    Pole,
    PowerLine,
    TrafficSign,
    Wall,
    Backpack,
    Umbrella,
    Handbag,
    Suitcase,
    TrashCan,
    Unknown,
}

/// The wire code of each class.
pub open spec fn spec_class_code(c: ObjectClass) -> u8 {
    match c {
        ObjectClass::Person => 0,
        ObjectClass::Bicycle => 1,
        ObjectClass::Car => 2,
        ObjectClass::Motorcycle => 3,
        ObjectClass::Bus => 4,
        ObjectClass::Truck => 5,
        ObjectClass::Train => 6,
        ObjectClass::Animal => 7,
        ObjectClass::TrafficLight => 10,
        ObjectClass::FireHydrant => 11,
        ObjectClass::StopSign => 12,
        ObjectClass::ParkingMeter => 13,
        ObjectClass::Bench => 14,
        ObjectClass::Tree => 15,
        ObjectClass::Building => 16,
        ObjectClass::Fence => 17,
        ObjectClass::Pole => 20,
        ObjectClass::PowerLine => 21,
        ObjectClass::TrafficSign => 22,
        ObjectClass::Wall => 23,
        ObjectClass::Backpack => 30,
        ObjectClass::Umbrella => 31,
        ObjectClass::Handbag => 32,
        ObjectClass::Suitcase => 33,
        ObjectClass::TrashCan => 34,
        ObjectClass::Unknown => 255,
    }
}

/// The class with wire code `val`; every number that is not the code of a
/// known class gives `Unknown`.
pub open spec fn spec_class_from(val: i64) -> ObjectClass {
    if val == 0 {
        ObjectClass::Person
    } else if val == 1 {
        ObjectClass::Bicycle
    } else if val == 2 {
        ObjectClass::Car
    } else if val == 3 {
        ObjectClass::Motorcycle
    } else if val == 4 {
        ObjectClass::Bus
    } else if val == 5 {
        ObjectClass::Truck
    } else if val == 6 {
        ObjectClass::Train
    } else if val == 7 {
        ObjectClass::Animal
    } else if val == 10 {
        ObjectClass::TrafficLight
    } else if val == 11 {
        ObjectClass::FireHydrant
    } else if val == 12 {
        ObjectClass::StopSign
    } else if val == 13 {
        ObjectClass::ParkingMeter
    } else if val == 14 {
        ObjectClass::Bench
    } else if val == 15 {
        ObjectClass::Tree
    } else if val == 16 {
        ObjectClass::Building
    } else if val == 17 {
        ObjectClass::Fence
    } else if val == 20 {
        ObjectClass::Pole
    } else if val == 21 {
        ObjectClass::PowerLine
    } else if val == 22 {
        ObjectClass::TrafficSign
    } else if val == 23 {
        ObjectClass::Wall
    } else if val == 30 {
        ObjectClass::Backpack
    } else if val == 31 {
        ObjectClass::Umbrella
    } else if val == 32 {
        ObjectClass::Handbag
    } else if val == 33 {
        ObjectClass::Suitcase
    } else if val == 34 {
        ObjectClass::TrashCan
    } else {
        ObjectClass::Unknown
    }
}

impl ObjectClass {
    /// The wire code of the class.
    pub fn code(self) -> (r: u8)
        ensures
            r == spec_class_code(self),
    {
        match self {
            ObjectClass::Person => 0,
            ObjectClass::Bicycle => 1,
            ObjectClass::Car => 2,
            ObjectClass::Motorcycle => 3,
            ObjectClass::Bus => 4,
            ObjectClass::Truck => 5,
            ObjectClass::Train => 6,
            ObjectClass::Animal => 7,
            ObjectClass::TrafficLight => 10,
            ObjectClass::FireHydrant => 11,
            ObjectClass::StopSign => 12,
            ObjectClass::ParkingMeter => 13,
            ObjectClass::Bench => 14,
            ObjectClass::Tree => 15,
            ObjectClass::Building => 16,
            ObjectClass::Fence => 17,
            ObjectClass::Pole => 20,
            ObjectClass::PowerLine => 21,
            ObjectClass::TrafficSign => 22,
            ObjectClass::Wall => 23,
            ObjectClass::Backpack => 30,
            ObjectClass::Umbrella => 31,
            ObjectClass::Handbag => 32,
            ObjectClass::Suitcase => 33,
            ObjectClass::TrashCan => 34,
            ObjectClass::Unknown => 255,
        }
    }

    /// Classes that the flight logic treats as static obstacles to avoid.
    pub open spec fn spec_is_static_obstacle(self) -> bool {
        self == ObjectClass::Tree || self == ObjectClass::Building
    }
}

impl From<i64> for ObjectClass {
    fn from(val: i64) -> (r: ObjectClass) {
        match val {
            0 => ObjectClass::Person,
            1 => ObjectClass::Bicycle,
            2 => ObjectClass::Car,
            3 => ObjectClass::Motorcycle,
            4 => ObjectClass::Bus,
            5 => ObjectClass::Truck,
            6 => ObjectClass::Train,
            7 => ObjectClass::Animal,
            10 => ObjectClass::TrafficLight,
            11 => ObjectClass::FireHydrant,
            12 => ObjectClass::StopSign,
            13 => ObjectClass::ParkingMeter,
            14 => ObjectClass::Bench,
            15 => ObjectClass::Tree,
            16 => ObjectClass::Building,
            17 => ObjectClass::Fence,
            20 => ObjectClass::Pole,
            21 => ObjectClass::PowerLine,
            22 => ObjectClass::TrafficSign,
            23 => ObjectClass::Wall,
            30 => ObjectClass::Backpack,
            31 => ObjectClass::Umbrella,
            32 => ObjectClass::Handbag,
            33 => ObjectClass::Suitcase,
            34 => ObjectClass::TrashCan,
            _ => ObjectClass::Unknown,
        }
    }
}

impl vstd::std_specs::convert::FromSpecImpl<i64> for ObjectClass {
    open spec fn obeys_from_spec() -> bool {
        true
    }

    open spec fn from_spec(v: i64) -> ObjectClass {
        spec_class_from(v)
    }
}

/// Decoding the code of a class gives the class back, for every class.
pub proof fn lemma_class_code_roundtrip(c: ObjectClass)
    ensures
        spec_class_from(spec_class_code(c) as i64) == c,
{
}

/// A number decodes to a known class exactly when it is that class's code.
pub proof fn lemma_class_from_known(val: i64)
    ensures
        spec_class_from(val) != ObjectClass::Unknown ==> spec_class_code(spec_class_from(val)) == val,
{
}

/// The protocol's fixed code table: each class has the wire number listed
/// here, and a number decodes to a known class exactly when it is that
/// class's number (every other number decodes to `Unknown`).
pub proof fn lemma_class_code_table(v: i64, c: ObjectClass)
    ensures
        spec_class_code(ObjectClass::Person) == 0,
        spec_class_code(ObjectClass::Bicycle) == 1,
        spec_class_code(ObjectClass::Car) == 2,
        spec_class_code(ObjectClass::Motorcycle) == 3,
        spec_class_code(ObjectClass::Bus) == 4,
        spec_class_code(ObjectClass::Truck) == 5,
        spec_class_code(ObjectClass::Train) == 6,
        spec_class_code(ObjectClass::Animal) == 7,
        spec_class_code(ObjectClass::TrafficLight) == 10,
        spec_class_code(ObjectClass::FireHydrant) == 11,
        spec_class_code(ObjectClass::StopSign) == 12,
        spec_class_code(ObjectClass::ParkingMeter) == 13,
        spec_class_code(ObjectClass::Bench) == 14,
        spec_class_code(ObjectClass::Tree) == 15,
        spec_class_code(ObjectClass::Building) == 16,
        spec_class_code(ObjectClass::Fence) == 17,
        spec_class_code(ObjectClass::Pole) == 20,
        spec_class_code(ObjectClass::PowerLine) == 21,
        spec_class_code(ObjectClass::TrafficSign) == 22,
        spec_class_code(ObjectClass::Wall) == 23,
        spec_class_code(ObjectClass::Backpack) == 30,
        spec_class_code(ObjectClass::Umbrella) == 31,
        spec_class_code(ObjectClass::Handbag) == 32,
        spec_class_code(ObjectClass::Suitcase) == 33,
        spec_class_code(ObjectClass::TrashCan) == 34,
        spec_class_code(ObjectClass::Unknown) == 255,
        c != ObjectClass::Unknown ==> (spec_class_from(v) == c <==> v == spec_class_code(c) as i64),
{
}

} // verus!
