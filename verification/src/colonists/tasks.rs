use vstd::prelude::*;

verus! {

pub struct TaskFindBed;

pub struct TaskSleep;

pub struct TaskIdle;

pub struct TaskPickRandomSpot;

pub struct TaskMoveTo;

} // verus!
