# loop_detector

A verified library that tells when a language model runs in circles, so that a
proxy can stop the reply and let the client try again.

- `repeat_detector`: within one streamed message, the same segment several
  times in a row.
- `cross_turn_detector`: across the messages of a session, the same action plan
  announced in several of them.
- `fingerprint`, `phrase`, `segments`: from a message to the normal forms of
  the action plans in it.
- `similarity`, `edit_distance`: when two fingerprints count as the same.
- `text`: whitespace, trimming, and the Unicode lookups of the standard library
  that the rest relies on.

The laws are the public proof functions named `law_..`; each stands in the module
it speaks of. `app/` holds what needs floating point or an atomic switch.
