use vstd::prelude::*;

verus! {

/// Mathematical model of a persisted event: the three fields as plain values.
#[verifier::ext_equal]
pub ghost struct EventModel {
    pub id: int,
    pub name: Seq<char>,
    pub time: Seq<char>,
}

/// A persisted record of one logged task: unique id, task name, timestamp.
#[derive(Debug)]
pub struct Event {
    pub id: i32,
    pub name: String,
    pub time: String,
}

impl View for Event {
    type V = EventModel;

    open spec fn view(&self) -> EventModel {
        EventModel { id: self.id as int, name: self.name@, time: self.time@ }
    }
}

impl Event {
    pub fn new(id: i32, name: String, time: String) -> (e: Event)
        ensures
            e@ == (EventModel { id: id as int, name: name@, time: time@ }),
    {
        Event { id, name, time }
    }
}

} // verus!
