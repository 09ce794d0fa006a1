use vstd::prelude::*;

verus! {

/// The error of an operation that needs two things of the same workflow type.
#[derive(Clone, Copy, Debug, PartialEq, Eq, Structural)]
pub enum WorkflowError {
    TypeMismatch,
}

pub type WorkflowResult<T> = Result<T, WorkflowError>;

impl WorkflowError {
    /// The message that describes the error.
    pub fn message(&self) -> (r: &'static str)
        ensures
            r@ == self.message_spec(),
    {
        match self {
            WorkflowError::TypeMismatch => "type mismatch",
        }
    }

    pub open spec fn message_spec(&self) -> Seq<char> {
        match self {
            WorkflowError::TypeMismatch => "type mismatch"@,
        }
    }
}

/// The kinds of work that a task or an asset belongs to.
#[derive(Clone, Copy, Debug, PartialEq, Eq, Structural)]
pub enum WorkflowType {
    Layout,
    KeyAnimation,
    InBetween,
    Painting,
}

/// The progress of a layout.
#[derive(Clone, Copy, Debug, PartialEq, Eq, Structural)]
pub enum LayoutState {
    NotStarted,
    Completed,
}

/// The progress of key animation.
#[derive(Clone, Copy, Debug, PartialEq, Eq, Structural)]
pub enum KeyAnimationState {
    NotStarted,
    Completed,
}

/// The progress of in-betweening.
#[derive(Clone, Copy, Debug, PartialEq, Eq, Structural)]
pub enum InBetweenState {
    NotStarted,
    Completed,
}

/// The progress of painting.
#[derive(Clone, Copy, Debug, PartialEq, Eq, Structural)]
pub enum PaintingState {
    NotStarted,
    Completed,
}

impl Default for LayoutState {
    fn default() -> (r: Self)
        ensures
            r == LayoutState::NotStarted,
    {
        LayoutState::NotStarted
    }
}

impl Default for KeyAnimationState {
    fn default() -> (r: Self)
        ensures
            r == KeyAnimationState::NotStarted,
    {
        KeyAnimationState::NotStarted
    }
}

impl Default for InBetweenState {
    fn default() -> (r: Self)
        ensures
            r == InBetweenState::NotStarted,
    {
        InBetweenState::NotStarted
    }
}

impl Default for PaintingState {
    fn default() -> (r: Self)
        ensures
            r == PaintingState::NotStarted,
    {
        PaintingState::NotStarted
    }
}

/// A workflow: its type together with the progress made in it.
#[derive(Clone, Copy, Debug, PartialEq, Eq, Structural)]
pub enum Workflow {
    Layout(LayoutState),
    KeyAnimation(KeyAnimationState),
    InBetween(InBetweenState),
    Painting(PaintingState),
}

impl Workflow {
    /// The type of a workflow.
    pub open spec fn type_of(self) -> WorkflowType {
        match self {
            Workflow::Layout(_) => WorkflowType::Layout,
            Workflow::KeyAnimation(_) => WorkflowType::KeyAnimation,
            Workflow::InBetween(_) => WorkflowType::InBetween,
            Workflow::Painting(_) => WorkflowType::Painting,
        }
    }

    /// The workflow of type `ty` in which nothing has been done yet.
    pub open spec fn fresh(ty: WorkflowType) -> Workflow {
        match ty {
            WorkflowType::Layout => Workflow::Layout(LayoutState::NotStarted),
            WorkflowType::KeyAnimation => Workflow::KeyAnimation(KeyAnimationState::NotStarted),
            WorkflowType::InBetween => Workflow::InBetween(InBetweenState::NotStarted),
            WorkflowType::Painting => Workflow::Painting(PaintingState::NotStarted),
        }
    }

    /// A workflow of type `ty`, not started.
    pub fn new(ty: WorkflowType) -> (r: Self)
        ensures
            r == Workflow::fresh(ty),
            r.type_of() == ty,
    {
        match ty {
            WorkflowType::Layout => Workflow::Layout(LayoutState::default()),
            WorkflowType::KeyAnimation => Workflow::KeyAnimation(KeyAnimationState::default()),
            WorkflowType::InBetween => Workflow::InBetween(InBetweenState::default()),
            WorkflowType::Painting => Workflow::Painting(PaintingState::default()),
        }
    }

    /// The type of this workflow.
    pub fn get_type(&self) -> (r: WorkflowType)
        ensures
            r == self.type_of(),
    {
        match self {
            Workflow::Layout(_) => WorkflowType::Layout,
            Workflow::KeyAnimation(_) => WorkflowType::KeyAnimation,
            Workflow::InBetween(_) => WorkflowType::InBetween,
            Workflow::Painting(_) => WorkflowType::Painting,
        }
    }
}

/// A workflow's type is that of its variant, whatever its progress, and a
/// new workflow has the type it was made with.
pub proof fn lemma_type_by_variant(
    l: LayoutState,
    k: KeyAnimationState,
    i: InBetweenState,
    p: PaintingState,
    ty: WorkflowType,
)
    ensures
        Workflow::Layout(l).type_of() == WorkflowType::Layout,
        Workflow::KeyAnimation(k).type_of() == WorkflowType::KeyAnimation,
        Workflow::InBetween(i).type_of() == WorkflowType::InBetween,
        Workflow::Painting(p).type_of() == WorkflowType::Painting,
        Workflow::fresh(ty).type_of() == ty,
{
}

} // verus!
