# labello

Verified bookkeeping for the Labello image-annotation workspace and its
dataset statistics. The library in `src/` is written in Verus: every function
carries a contract that Verus proves, and the laws the workspace relies on
(observing review history twice changes nothing, task counts partition their
denominator, showing the same model suggestions again changes nothing, and so
on) are stated as proof functions.

Modules:

- `assignment`, `review_history`: which images carry each user's latest
  finished review assignments, kept up to date as image states are saved.
- `stats`, `contributors`, `focus`, `activity`: dataset statistics, per-user
  daily contributions, the scoring focus and today's activity.
- `leaderboard`, `leaderboard_table`, `calendar`: rankings, the table order and
  reporting periods (calendar arithmetic through chrono).
- `queue`, `image_quality`, `prelabels`, `prelabel_review`: the preload queue,
  image representations, model hints and the review of model suggestions.
- `export`, `presence`, `build_information`, `review_context`, `review_revision`, `inspector`, `workspace`,
  `models`, `avatar`, `keyed`: the export flow, presence, build identity, review
  texts and small workspace decisions.

`app/` holds what runs around the library: the app clock (`web-time`) and the
registry that aborts image transfers (`futures`). `tests/` exercises the
library with the real outside crates linked.
