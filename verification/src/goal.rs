use crate::tile::Content;
use crate::{GOAL_QUANTITY, MinerRobot};
use vstd::prelude::*;

verus! {

/// What a goal asks for.
#[derive(Debug, Clone, Copy, PartialEq, Eq, Structural)]
pub enum GoalType {
    GetItems,
}

/// A goal to hand to the goal tracker.
#[derive(Debug, PartialEq, Eq)]
pub struct Goal {
    pub name: String,
    pub description: String,
    pub goal_type: GoalType,
    pub item: Option<Content>,
    pub goal_quantity: u32,
}

/// What to do about the goals at the start of a tick.
#[derive(Debug, PartialEq, Eq)]
pub enum GoalAction {
    /// The tracker is empty: give it this goal.
    SetGoal(Goal),
    /// The tracker holds goals: let it drop those that are met.
    CleanCompleted,
}

/// The name of the goal of finding a content.
pub open spec fn goal_name(content: Content) -> Seq<char> {
    match content {
        Content::Bank(_, _) => "Looking for Bank"@,
        Content::Bin(_, _) => "Looking for Bin"@,
        Content::Building => "Looking for Building"@,
        Content::Bush(_) => "Looking for Bush"@,
        Content::Crate(_, _) => "Looking for Crate"@,
        Content::Coin(_) => "Looking for Coin"@,
        Content::Fire => "Looking for Fire"@,
        Content::Fish(_) => "Looking for Fish"@,
        Content::Garbage(_) => "Looking for Garbage"@,
        Content::JollyBlock(_) => "Looking for JollyBlock"@,
        Content::Market(_) => "Looking for Market"@,
        Content::Rock(_) => "Looking for Rocks"@,
        Content::Scarecrow => "Looking for Scarecrow"@,
        Content::Tree(_) => "Looking for Tree"@,
        Content::Water(_) => "Looking for Water"@,
        Content::Empty => "Looking for None"@,
    }
}

/// The description of the goal of finding a content.
pub open spec fn goal_description(content: Content) -> Seq<char> {
    match content {
        Content::Bank(_, _) => "Going to the Bank"@,
        Content::Bin(_, _) => "Using the bin"@,
        Content::Building => "Building?"@,
        Content::Bush(_) => "Hiding in the bush"@,
        Content::Crate(_, _) => "Crate!"@,
        Content::Coin(_) => "Making money"@,
        Content::Fire => "Looking for fire"@,
        Content::Fish(_) => "Fishing"@,
        Content::Garbage(_) => "Garbage collecting"@,
        Content::JollyBlock(_) => "JollyBlocking"@,
        Content::Market(_) => "Going to the market"@,
        Content::Rock(_) => "Collecting Rocks"@,
        Content::Scarecrow => "Scarecrowing"@,
        Content::Tree(_) => "Looking for a forest"@,
        Content::Water(_) => "In need of Water"@,
        Content::Empty => "None"@,
    }
}

/// The goal of gathering `goal_quantity` of a content.
pub open spec fn goal_for(goal_type: GoalType, content: Content, goal_quantity: u32, goal: Goal) -> bool {
    &&& goal.name@ == goal_name(content)
    &&& goal.description@ == goal_description(content)
    &&& goal.goal_type == goal_type
    &&& goal.item == Some(content)
    &&& goal.goal_quantity == goal_quantity
}

impl MinerRobot {
    /// What to do about the goals, given how many the tracker holds: an empty
    /// tracker gets the goal of collecting `GOAL_QUANTITY` rocks; any other
    /// is cleaned of the goals that are met.
    pub fn handle_goals(&self, goals: usize) -> (action: GoalAction)
        ensures
            match action {
                GoalAction::SetGoal(goal) => goals == 0 && goal_for(
                    GoalType::GetItems,
                    Content::Rock(1),
                    GOAL_QUANTITY,
                    goal,
                ),
                GoalAction::CleanCompleted => goals != 0,
            },
    {
        if goals == 0 {
            GoalAction::SetGoal(
                self.set_goal_by_content(GoalType::GetItems, Content::Rock(1), GOAL_QUANTITY),
            )
        } else {
            GoalAction::CleanCompleted
        }
    }

    /// The goal of gathering `goal_quantity` of `content`, named and
    /// described after the content.
    pub fn set_goal_by_content(&self, goal_type: GoalType, content: Content, goal_quantity: u32) -> (goal:
        Goal)
        ensures
            goal_for(goal_type, content, goal_quantity, goal),
    {
        Goal {
            name: Self::get_goal_name_by_content(&content),
            description: Self::get_goal_description_by_content(&content),
            goal_type,
            item: Some(content),
            goal_quantity,
        }
    }

    /// The name of the goal of finding a content.
    pub fn get_goal_name_by_content(content: &Content) -> (name: String)
        ensures
            name@ == goal_name(*content),
    {
        (match content {
            Content::Bank(_, _) => "Looking for Bank",
            Content::Bin(_, _) => "Looking for Bin",
            Content::Building => "Looking for Building",
            Content::Bush(_) => "Looking for Bush",
            Content::Crate(_, _) => "Looking for Crate",
            Content::Coin(_) => "Looking for Coin",
            Content::Fire => "Looking for Fire",
            Content::Fish(_) => "Looking for Fish",
            Content::Garbage(_) => "Looking for Garbage",
            Content::JollyBlock(_) => "Looking for JollyBlock",
            Content::Market(_) => "Looking for Market",
            Content::Rock(_) => "Looking for Rocks",
            Content::Scarecrow => "Looking for Scarecrow",
            Content::Tree(_) => "Looking for Tree",
            Content::Water(_) => "Looking for Water",
            Content::Empty => "Looking for None",
        }).to_owned()
    }

    /// The description of the goal of finding a content.
    pub fn get_goal_description_by_content(content: &Content) -> (description: String)
        ensures
            description@ == goal_description(*content),
    {
        (match content {
            Content::Bank(_, _) => "Going to the Bank",
            Content::Bin(_, _) => "Using the bin",
            Content::Building => "Building?",
            Content::Bush(_) => "Hiding in the bush",
            Content::Crate(_, _) => "Crate!",
            Content::Coin(_) => "Making money",
            Content::Fire => "Looking for fire",
            Content::Fish(_) => "Fishing",
            Content::Garbage(_) => "Garbage collecting",
            Content::JollyBlock(_) => "JollyBlocking",
            Content::Market(_) => "Going to the market",
            Content::Rock(_) => "Collecting Rocks",
            Content::Scarecrow => "Scarecrowing",
            Content::Tree(_) => "Looking for a forest",
            Content::Water(_) => "In need of Water",
            Content::Empty => "None",
        }).to_owned()
    }
}

} // verus!
